use vstd::prelude::*;
use crate::cursor::{le_u16, take_bytes, take_u16, ByteCursor};
use crate::error::{DecodeError, ErrorKind};
use crate::expand::{bytes_of, expand, expand_block, failure_at, lemma_failure_inside};
use crate::rows::{reorder, reorder_rows};

verus! {

/// One unit of the compressed stream: the two sizes that head it, and the
/// bytes that follow them.
pub struct Block<'a> {
    pub original_size: u16,
    pub compressed_size: u16,
    pub payload: &'a [u8],
}

/// A block as plain values.
pub struct BlockView {
    pub original_size: int,
    pub compressed_size: int,
    pub payload: Seq<u8>,
}

impl BlockView {
    /// A block that is no shorter than what it stands for was stored as it
    /// is.
    pub open spec fn is_raw(self) -> bool {
        self.original_size <= self.compressed_size
    }
}

impl<'a> View for Block<'a> {
    type V = BlockView;

    open spec fn view(&self) -> BlockView {
        BlockView {
            original_size: self.original_size as int,
            compressed_size: self.compressed_size as int,
            payload: self.payload@,
        }
    }
}

impl<'a> Block<'a> {
    /// Whether the payload was stored as it is, because compressing it did
    /// not make it shorter.
    pub fn is_raw(&self) -> (raw: bool)
        ensures
            raw == self@.is_raw(),
    {
        self.original_size <= self.compressed_size
    }
}

/// The block that starts at index `pos` of `stream`.
///
/// There is none where the stream ends at `pos`. A header of which only a
/// part is there is a failure at the size that is cut short or missing, and a
/// payload shorter than the header declares is a failure at the payload's
/// first index.
pub open spec fn block_at(stream: Seq<u8>, pos: int) -> Result<Option<BlockView>, DecodeError> {
    let left = stream.len() - pos;
    if left <= 0 {
        Ok(None)
    } else if left < 2 {
        Err(failure_at(ErrorKind::Truncated, pos))
    } else if left < 4 {
        Err(failure_at(ErrorKind::Truncated, pos + 2))
    } else {
        let compressed_size = le_u16(stream[pos + 2], stream[pos + 3]);
        if left - 4 < compressed_size {
            Err(failure_at(ErrorKind::Truncated, pos + 4))
        } else {
            Ok(
                Some(
                    BlockView {
                        original_size: le_u16(stream[pos], stream[pos + 1]),
                        compressed_size,
                        payload: stream.subrange(pos + 4, pos + 4 + compressed_size),
                    },
                ),
            )
        }
    }
}

/// What decoding a run of blocks comes to: the output or the failure, and the
/// index at which reading stopped.
pub struct Decoded {
    pub result: Result<Seq<u8>, DecodeError>,
    pub end: int,
}

/// What decoding the blocks of `stream` from index `pos` on comes to, when
/// `out` has been decoded so far.
///
/// Decoding ends where the stream ends at a block's start, and behind the
/// first raw block, whose payload goes to the output as it is. Any other
/// block's payload is expanded; a failure in it is reported at its index in
/// the stream, with the whole block read.
pub open spec fn decode_from(stream: Seq<u8>, pos: int, out: Seq<u8>) -> Decoded
    decreases stream.len() - pos,
{
    match block_at(stream, pos) {
        Err(error) => Decoded { result: Err(error), end: error.offset as int },
        Ok(None) => Decoded { result: Ok(out), end: pos },
        Ok(Some(block)) => {
            let end = pos + 4 + block.compressed_size;
            if block.is_raw() {
                Decoded { result: Ok(out + block.payload), end }
            } else {
                match expand(block.payload, out) {
                    Err(error) => Decoded { result: Err(error.shifted(pos + 4)), end },
                    Ok(longer) => decode_from(stream, end, longer),
                }
            }
        },
    }
}

/// The image that the blocks of `stream` from index `pos` on hold: their
/// decoded bytes, as `rows` rows of `width` bytes, top row first.
pub open spec fn decompress(stream: Seq<u8>, pos: int, width: int, rows: nat) -> Result<
    Seq<u8>,
    DecodeError,
> {
    match decode_from(stream, pos, Seq::empty()).result {
        Err(error) => Err(error),
        Ok(buffer) => reorder(buffer, width, rows),
    }
}

/// Reads one block: its two sizes, then as many payload bytes as the second
/// size declares.
///
/// Returns `None`, with nothing read, where the stream ends at the block's
/// start. Fails with `Truncated` where the stream ends inside the header or
/// inside the payload; the cursor then stands at the failure's offset, before
/// the item that is cut short.
pub fn parse_block<'a>(reader: &mut ByteCursor<'a>) -> (result: Result<
    Option<Block<'a>>,
    DecodeError,
>)
    requires
        old(reader).well_formed(),
    ensures
        match result {
            Ok(Some(block)) => {
                &&& block_at(old(reader).stream(), old(reader).position() as int) == Ok::<
                    Option<BlockView>,
                    DecodeError,
                >(Some(block@))
                &&& final(reader).advanced_from(old(reader), 4 + block.compressed_size)
            },
            Ok(None) => {
                &&& block_at(old(reader).stream(), old(reader).position() as int) == Ok::<
                    Option<BlockView>,
                    DecodeError,
                >(None)
                &&& final(reader).advanced_from(old(reader), 0)
            },
            Err(error) => {
                &&& block_at(old(reader).stream(), old(reader).position() as int) == Err::<
                    Option<BlockView>,
                    DecodeError,
                >(error)
                &&& final(reader).advanced_from(old(reader), error.offset - old(reader).position())
            },
        },
{
    let ghost stream = reader.stream();
    let ghost pos = reader.position() as int;
    let original_size = match take_u16(reader) {
        Ok(size) => size,
        Err(error) => {
            if error.kind == ErrorKind::EndOfStream {
                return Ok(None);
            }
            return Err(error);
        },
    };
    let compressed_size = match take_u16(reader) {
        Ok(size) => size,
        Err(error) => {
            return Err(DecodeError { kind: ErrorKind::Truncated, offset: error.offset });
        },
    };
    assert(original_size == le_u16(stream[pos], stream[pos + 1]));
    assert(compressed_size == le_u16(stream[pos + 2], stream[pos + 3]));
    match take_bytes(reader, compressed_size as usize) {
        Ok(payload) => {
            assert(payload@ =~= stream.subrange(pos + 4, pos + 4 + compressed_size));
            Ok(Some(Block { original_size, compressed_size, payload }))
        },
        Err(error) => Err(error),
    }
}

/// Decodes block after block into one buffer, until the stream ends at a
/// block's start or a raw block has been taken.
///
/// A failure is reported at its offset in the stream. The cursor is left
/// where reading stopped: behind the last block that was read in full, or
/// before the item that was cut short.
pub fn decode_blocks(reader: &mut ByteCursor) -> (result: Result<Vec<u8>, DecodeError>)
    requires
        old(reader).well_formed(),
    ensures
        ({
            let decoded = decode_from(
                old(reader).stream(),
                old(reader).position() as int,
                Seq::empty(),
            );
            &&& bytes_of(result) == decoded.result
            &&& final(reader).advanced_from(old(reader), decoded.end - old(reader).position())
        }),
{
    let ghost stream = reader.stream();
    let ghost goal = decode_from(stream, reader.position() as int, Seq::empty());
    let mut bitmap: Vec<u8> = Vec::new();
    loop
        invariant
            reader.well_formed(),
            reader.stream() == stream,
            stream == old(reader).stream(),
            goal == decode_from(stream, old(reader).position() as int, Seq::empty()),
            decode_from(stream, reader.position() as int, bitmap@) == goal,
        decreases stream.len() - reader.position(),
    {
        let start: usize = reader.position();
        let block = match parse_block(reader) {
            Err(error) => {
                return Err(error);
            },
            Ok(None) => {
                return Ok(bitmap);
            },
            Ok(Some(block)) => block,
        };
        if block.is_raw() {
            let mut at: usize = 0;
            let ghost before = bitmap@;
            while at < block.payload.len()
                invariant
                    at <= block.payload@.len(),
                    bitmap@ == before + block.payload@.take(at as int),
                decreases block.payload@.len() - at,
            {
                bitmap.push(block.payload[at]);
                at = at + 1;
                assert(bitmap@ =~= before + block.payload@.take(at as int));
            }
            assert(bitmap@ =~= before + block.payload@);
            return Ok(bitmap);
        }
        let ghost before = bitmap@;
        match expand_block(block.payload, bitmap) {
            Err(error) => {
                proof {
                    lemma_failure_inside(block.payload@, before);
                }
                return Err(DecodeError { kind: error.kind, offset: error.offset + (start + 4) });
            },
            Ok(longer) => {
                bitmap = longer;
            },
        }
    }
}

/// Decodes the compressed image that `reader` stands at: block after block,
/// then the rows put top row first.
///
/// The image has `height_in_rows` rows of `bytes_per_row` bytes. A failure of
/// a block is reported as `decode_blocks` reports it; decoded bytes too few
/// for the rows are a `Truncated` failure at their number.
pub fn decompress_bitmap(reader: &mut ByteCursor, bytes_per_row: u16, height_in_rows: u16) -> (result:
    Result<Vec<u8>, DecodeError>)
    requires
        old(reader).well_formed(),
    ensures
        bytes_of(result) == decompress(
            old(reader).stream(),
            old(reader).position() as int,
            bytes_per_row as int,
            height_in_rows as nat,
        ),
        final(reader).advanced_from(
            old(reader),
            decode_from(old(reader).stream(), old(reader).position() as int, Seq::empty()).end
                - old(reader).position(),
        ),
{
    match decode_blocks(reader) {
        Err(error) => Err(error),
        Ok(bitmap) => reorder_rows(bitmap.as_slice(), bytes_per_row as usize, height_in_rows as usize),
    }
}

} // verus!
