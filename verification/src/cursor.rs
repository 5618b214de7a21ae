use vstd::prelude::*;
use vstd::slice::slice_subrange;
use crate::error::{DecodeError, ErrorKind};

verus! {

/// A forward-only reader over a byte stream held in memory.
///
/// Its view is the part of the stream that has not been read yet.
pub struct ByteCursor<'a> {
    data: &'a [u8],
    pos: usize,
}

/// The number that two bytes spell, least significant byte first.
pub open spec fn le_u16(lo: u8, hi: u8) -> int {
    lo as int + 256 * (hi as int)
}

/// The number that four bytes spell, least significant byte first.
pub open spec fn le_u32(b0: u8, b1: u8, b2: u8, b3: u8) -> int {
    b0 as int + 256 * (b1 as int) + 65536 * (b2 as int) + 16777216 * (b3 as int)
}

impl<'a> View for ByteCursor<'a> {
    type V = Seq<u8>;

    open spec fn view(&self) -> Seq<u8> {
        self.stream().skip(self.spec_position() as int)
    }
}

impl<'a> ByteCursor<'a> {
    /// Every byte of the stream, read or not.
    pub closed spec fn stream(&self) -> Seq<u8> {
        self.data@
    }

    /// How many bytes have been read.
    pub closed spec fn spec_position(&self) -> usize {
        self.pos
    }

    /// The cursor never stands behind the end of its stream.
    pub open spec fn well_formed(&self) -> bool {
        self.spec_position() <= self.stream().len()
    }

    /// A cursor at the start of `data`.
    pub fn new(data: &'a [u8]) -> (cursor: Self)
        ensures
            cursor.well_formed(),
            cursor.stream() == data@,
            cursor.position() == 0,
    {
        ByteCursor { data, pos: 0 }
    }

    /// How many bytes have been read.
    #[verifier::when_used_as_spec(spec_position)]
    pub fn position(&self) -> (p: usize)
        ensures
            p == self.position(),
    {
        self.pos
    }

    /// How many bytes are left to read.
    pub fn remaining(&self) -> (n: usize)
        requires
            self.well_formed(),
        ensures
            n == self@.len(),
    {
        self.data.len() - self.pos
    }

    /// Whether `self` is `before` after `n` more bytes were read.
    pub open spec fn advanced_from(&self, before: &Self, n: int) -> bool {
        &&& self.well_formed()
        &&& self.stream() == before.stream()
        &&& self.position() == before.position() + n
    }

    /// The failure of kind `kind` at the place where the cursor stands.
    pub open spec fn failure(&self, kind: ErrorKind) -> DecodeError {
        DecodeError { kind, offset: self.position() }
    }
}

/// Reads one byte.
///
/// At the end of the stream the read fails with `EndOfStream` and the cursor
/// stays where it is.
pub fn take_u8(reader: &mut ByteCursor) -> (result: Result<u8, DecodeError>)
    requires
        old(reader).well_formed(),
    ensures
        match result {
            Ok(value) => {
                &&& old(reader)@.len() >= 1
                &&& value == old(reader)@[0]
                &&& final(reader).advanced_from(old(reader), 1)
            },
            Err(error) => {
                &&& old(reader)@.len() == 0
                &&& error == old(reader).failure(ErrorKind::EndOfStream)
                &&& final(reader).advanced_from(old(reader), 0)
            },
        },
{
    if reader.pos >= reader.data.len() {
        return Err(DecodeError { kind: ErrorKind::EndOfStream, offset: reader.pos });
    }
    let value = reader.data[reader.pos];
    reader.pos = reader.pos + 1;
    Ok(value)
}

/// Reads a 16-bit number, least significant byte first.
///
/// With no byte left the read fails with `EndOfStream`, with a single byte
/// left it fails with `Truncated`; a failed read leaves the cursor where it is.
pub fn take_u16(reader: &mut ByteCursor) -> (result: Result<u16, DecodeError>)
    requires
        old(reader).well_formed(),
    ensures
        match result {
            Ok(value) => {
                &&& old(reader)@.len() >= 2
                &&& value == le_u16(old(reader)@[0], old(reader)@[1])
                &&& final(reader).advanced_from(old(reader), 2)
            },
            Err(error) => {
                &&& old(reader)@.len() < 2
                &&& error == old(reader).failure(
                    if old(reader)@.len() == 0 {
                        ErrorKind::EndOfStream
                    } else {
                        ErrorKind::Truncated
                    },
                )
                &&& final(reader).advanced_from(old(reader), 0)
            },
        },
{
    let left = reader.remaining();
    if left == 0 {
        return Err(DecodeError { kind: ErrorKind::EndOfStream, offset: reader.pos });
    }
    if left < 2 {
        return Err(DecodeError { kind: ErrorKind::Truncated, offset: reader.pos });
    }
    let lo: u8 = reader.data[reader.pos];
    let hi: u8 = reader.data[reader.pos + 1];
    reader.pos = reader.pos + 2;
    Ok(lo as u16 + 256 * (hi as u16))
}

/// Reads a 32-bit number, least significant byte first.
///
/// With no byte left the read fails with `EndOfStream`, with one to three
/// bytes left it fails with `Truncated`; a failed read leaves the cursor where
/// it is.
pub fn take_u32(reader: &mut ByteCursor) -> (result: Result<u32, DecodeError>)
    requires
        old(reader).well_formed(),
    ensures
        match result {
            Ok(value) => {
                &&& old(reader)@.len() >= 4
                &&& value == le_u32(
                    old(reader)@[0],
                    old(reader)@[1],
                    old(reader)@[2],
                    old(reader)@[3],
                )
                &&& final(reader).advanced_from(old(reader), 4)
            },
            Err(error) => {
                &&& old(reader)@.len() < 4
                &&& error == old(reader).failure(
                    if old(reader)@.len() == 0 {
                        ErrorKind::EndOfStream
                    } else {
                        ErrorKind::Truncated
                    },
                )
                &&& final(reader).advanced_from(old(reader), 0)
            },
        },
{
    let left = reader.remaining();
    if left == 0 {
        return Err(DecodeError { kind: ErrorKind::EndOfStream, offset: reader.pos });
    }
    if left < 4 {
        return Err(DecodeError { kind: ErrorKind::Truncated, offset: reader.pos });
    }
    let b0: u8 = reader.data[reader.pos];
    let b1: u8 = reader.data[reader.pos + 1];
    let b2: u8 = reader.data[reader.pos + 2];
    let b3: u8 = reader.data[reader.pos + 3];
    reader.pos = reader.pos + 4;
    Ok(b0 as u32 + 256 * (b1 as u32) + 65536 * (b2 as u32) + 16777216 * (b3 as u32))
}

/// Reads the next `count` bytes.
///
/// With fewer than `count` bytes left the read fails with `Truncated` and the
/// cursor stays where it is.
pub fn take_bytes<'a>(reader: &mut ByteCursor<'a>, count: usize) -> (result: Result<
    &'a [u8],
    DecodeError,
>)
    requires
        old(reader).well_formed(),
    ensures
        match result {
            Ok(bytes) => {
                &&& old(reader)@.len() >= count
                &&& bytes@ == old(reader)@.take(count as int)
                &&& final(reader).advanced_from(old(reader), count as int)
            },
            Err(error) => {
                &&& old(reader)@.len() < count
                &&& error == old(reader).failure(ErrorKind::Truncated)
                &&& final(reader).advanced_from(old(reader), 0)
            },
        },
{
    let start: usize = reader.pos;
    if reader.data.len() - start < count {
        return Err(DecodeError { kind: ErrorKind::Truncated, offset: start });
    }
    let bytes = slice_subrange(reader.data, start, start + count);
    reader.pos = start + count;
    assert(bytes@ =~= old(reader)@.take(count as int));
    Ok(bytes)
}

} // verus!
