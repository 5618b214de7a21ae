use vstd::prelude::*;
use crate::error::{DecodeError, ErrorKind};

verus! {

/// An instruction to repeat bytes that were decoded before: `length` bytes,
/// starting `offset` bytes before the end of the output.
#[derive(Clone, Copy, Debug, PartialEq, Eq, Structural)]
pub struct BackReference {
    pub offset: usize,
    pub length: usize,
}

/// The failure of kind `kind` at index `at`.
pub open spec fn failure_at(kind: ErrorKind, at: int) -> DecodeError {
    DecodeError { kind, offset: at as usize }
}

/// The distance that the two bytes `b1`, `b2` of a reference field spell: the
/// high nibble of `b1` above the eight bits of `b2`.
pub open spec fn reference_offset(b1: u8, b2: u8) -> int {
    (b1 as int / 16) * 256 + b2 as int
}

/// The reference field that starts at index `at` of `payload`, with the index
/// of the byte that follows the field.
///
/// A field that spells distance 0 is the stop mark and holds no reference. A
/// low nibble from 1 to 15 stands for the lengths 17 down to 3; a low nibble
/// of 0 says that a third byte follows, which holds the length less 18.
pub open spec fn reference_at(payload: Seq<u8>, at: int) -> Result<
    (Option<BackReference>, int),
    DecodeError,
> {
    if at + 1 >= payload.len() {
        Err(failure_at(ErrorKind::Truncated, at))
    } else {
        let offset = reference_offset(payload[at], payload[at + 1]);
        let nibble = payload[at] as int % 16;
        if offset == 0 {
            Ok((None, at + 2))
        } else if nibble != 0 {
            Ok(
                (
                    Some(
                        BackReference { offset: offset as usize, length: (18 - nibble) as usize },
                    ),
                    at + 2,
                ),
            )
        } else if at + 2 >= payload.len() {
            Err(failure_at(ErrorKind::Truncated, at))
        } else {
            Ok(
                (
                    Some(
                        BackReference {
                            offset: offset as usize,
                            length: (payload[at + 2] as int + 18) as usize,
                        },
                    ),
                    at + 3,
                ),
            )
        }
    }
}

/// `out` after `count` bytes were appended one by one, each a copy of the byte
/// that stood `offset` places before the end at that moment.
pub open spec fn copy_back(out: Seq<u8>, offset: int, count: nat) -> Seq<u8>
    decreases count,
{
    if count == 0 {
        out
    } else {
        copy_back(out.push(out[out.len() - offset]), offset, (count - 1) as nat)
    }
}

/// A control byte after its leading bit was consumed.
pub open spec fn next_control(control: u8) -> u8 {
    ((control as int * 2) % 256) as u8
}

/// What decoding yields from index `at` of `payload` on, when `bits` bits of
/// `control` are still to be consumed, leading bit first, and `out` has been
/// decoded so far.
///
/// Decoding ends where the payload ends, whatever is left of the control byte.
/// With no bit left, the byte at `at` is the next control byte. A clear bit
/// takes the byte at `at` as it is; a set bit takes a reference field, whose
/// stop mark drops the rest of the control byte.
pub open spec fn expand_from(
    payload: Seq<u8>,
    at: int,
    control: u8,
    bits: nat,
    out: Seq<u8>,
) -> Result<Seq<u8>, DecodeError>
    decreases payload.len() - at, bits,
{
    if at < 0 || at >= payload.len() {
        Ok(out)
    } else if bits == 0 {
        expand_from(payload, at + 1, payload[at], 8, out)
    } else if control < 128 {
        expand_from(payload, at + 1, next_control(control), (bits - 1) as nat, out.push(payload[at]))
    } else {
        match reference_at(payload, at) {
            Err(error) => Err(error),
            Ok((None, next)) => expand_from(payload, next, 0, 0, out),
            Ok((Some(reference), next)) => {
                if reference.offset > out.len() {
                    Err(failure_at(ErrorKind::InvalidReference, at))
                } else {
                    expand_from(
                        payload,
                        next,
                        next_control(control),
                        (bits - 1) as nat,
                        copy_back(out, reference.offset as int, reference.length as nat),
                    )
                }
            },
        }
    }
}

/// What one block's payload adds to the output `out`: its first byte as it
/// is, then what its control bytes call for. An empty payload adds nothing.
pub open spec fn expand(payload: Seq<u8>, out: Seq<u8>) -> Result<Seq<u8>, DecodeError> {
    if payload.len() == 0 {
        Ok(out)
    } else {
        expand_from(payload, 1, 0, 0, out.push(payload[0]))
    }
}

/// A result with its buffer taken as the sequence of its bytes.
pub open spec fn bytes_of(result: Result<Vec<u8>, DecodeError>) -> Result<Seq<u8>, DecodeError> {
    match result {
        Ok(buffer) => Ok(buffer@),
        Err(error) => Err(error),
    }
}

/// What was read of a reference field, with the index behind it as a
/// mathematical integer.
pub open spec fn field_of(result: Result<(Option<BackReference>, usize), DecodeError>) -> Result<
    (Option<BackReference>, int),
    DecodeError,
> {
    match result {
        Ok((reference, next)) => Ok((reference, next as int)),
        Err(error) => Err(error),
    }
}

/// Reads the reference field that starts at index `at` of `payload`.
///
/// Fails with `Truncated` at `at` where the payload ends inside the field.
pub fn read_reference(payload: &[u8], at: usize) -> (result: Result<
    (Option<BackReference>, usize),
    DecodeError,
>)
    ensures
        field_of(result) == reference_at(payload@, at as int),
{
    let len = payload.len();
    if at >= len || len - at < 2 {
        return Err(DecodeError { kind: ErrorKind::Truncated, offset: at });
    }
    let b1: u8 = payload[at];
    let b2: u8 = payload[at + 1];
    let high: usize = (b1 & 0xF0) as usize;
    let low: usize = (b1 & 0x0F) as usize;
    let offset: usize = (high << 4) | (b2 as usize);
    assert(offset == reference_offset(b1, b2) && low == b1 as int % 16 && low < 16) by {
        let h: usize = (b1 & 0xF0) as usize;
        let l: usize = (b1 & 0x0F) as usize;
        let w: usize = b2 as usize;
        assert(((h << 4) | w) == (b1 as usize / 16) * 256 + w && l == b1 as usize % 16 && l < 16)
            by (bit_vector)
            requires
                h == (b1 & 0xF0) as usize,
                l == (b1 & 0x0F) as usize,
                w == b2 as usize,
        ;
    }
    if offset == 0 {
        return Ok((None, at + 2));
    }
    if low != 0 {
        return Ok((Some(BackReference { offset, length: 18 - low }), at + 2));
    }
    if len - at < 3 {
        return Err(DecodeError { kind: ErrorKind::Truncated, offset: at });
    }
    let b3: u8 = payload[at + 2];
    Ok((Some(BackReference { offset, length: b3 as usize + 18 }), at + 3))
}

/// Appends `length` bytes to `out`, one by one, each a copy of the byte that
/// stands `offset` places before the end at that moment, so that a run longer
/// than `offset` repeats what it has just written.
pub fn append_copy(out: &mut Vec<u8>, offset: usize, length: usize)
    requires
        1 <= offset <= old(out)@.len(),
    ensures
        final(out)@ == copy_back(old(out)@, offset as int, length as nat),
{
    let mut done: usize = 0;
    while done < length
        invariant
            done <= length,
            1 <= offset <= out@.len(),
            copy_back(out@, offset as int, (length - done) as nat) == copy_back(
                old(out)@,
                offset as int,
                length as nat,
            ),
        decreases length - done,
    {
        let byte: u8 = out[out.len() - offset];
        out.push(byte);
        done = done + 1;
    }
}

/// Decodes one block's payload and appends what it yields to `out`.
///
/// Fails with `Truncated` where the payload ends inside a reference field, and
/// with `InvalidReference` where a reference points before the start of the
/// output; the failure's offset is the index of the field in `payload`.
pub fn expand_block(payload: &[u8], out: Vec<u8>) -> (result: Result<Vec<u8>, DecodeError>)
    ensures
        bytes_of(result) == expand(payload@, out@),
{
    let ghost goal = expand(payload@, out@);
    let mut buffer = out;
    let len = payload.len();
    if len == 0 {
        return Ok(buffer);
    }
    buffer.push(payload[0]);
    let mut at: usize = 1;
    while at < len
        invariant
            len == payload@.len(),
            1 <= at <= len,
            goal == expand(payload@, out@),
            expand_from(payload@, at as int, 0, 0, buffer@) == goal,
        decreases len - at,
    {
        let ghost start = at;
        let mut control: u8 = payload[at];
        at = at + 1;
        let mut bits: u8 = 8;
        while bits > 0 && at < len
            invariant
                len == payload@.len(),
                start < at <= len,
                bits <= 8,
                goal == expand(payload@, out@),
                expand_from(payload@, at as int, control, bits as nat, buffer@) == goal,
            ensures
                bits == 0 || at >= len,
            decreases bits,
        {
            if control & 0x80 == 0 {
                assert(control < 128) by (bit_vector)
                    requires
                        control & 0x80 == 0,
                ;
                buffer.push(payload[at]);
                at = at + 1;
            } else {
                assert(control >= 128) by (bit_vector)
                    requires
                        control & 0x80 != 0,
                ;
                match read_reference(payload, at) {
                    Err(error) => {
                        return Err(error);
                    },
                    Ok((None, next)) => {
                        proof {
                            lemma_control_spent(payload@, next as int, control, buffer@);
                        }
                        at = next;
                        bits = 0;
                        break ;
                    },
                    Ok((Some(reference), next)) => {
                        if reference.offset > buffer.len() {
                            return Err(
                                DecodeError { kind: ErrorKind::InvalidReference, offset: at },
                            );
                        }
                        append_copy(&mut buffer, reference.offset, reference.length);
                        at = next;
                    },
                }
            }
            assert((control << 1) == next_control(control)) by {
                let shifted: u8 = control << 1;
                assert(shifted as int == (control as int * 2) % 256) by (bit_vector)
                    requires
                        shifted == control << 1,
                ;
            }
            control = control << 1;
            bits = bits - 1;
        }
        proof {
            lemma_control_spent(payload@, at as int, control, buffer@);
        }
    }
    Ok(buffer)
}

/// With no bit left to consume, the control byte has no say in what follows.
pub proof fn lemma_control_spent(payload: Seq<u8>, at: int, control: u8, out: Seq<u8>)
    ensures
        expand_from(payload, at, control, 0, out) == expand_from(payload, at, 0, 0, out),
{
}

/// A failure in the course of decoding points at a byte of the payload.
pub proof fn lemma_failure_inside_from(
    payload: Seq<u8>,
    at: int,
    control: u8,
    bits: nat,
    out: Seq<u8>,
)
    requires
        payload.len() <= usize::MAX,
    ensures
        match expand_from(payload, at, control, bits, out) {
            Ok(_) => true,
            Err(error) => at <= error.offset < payload.len(),
        },
    decreases payload.len() - at, bits,
{
    if at < 0 || at >= payload.len() {
    } else if bits == 0 {
        lemma_failure_inside_from(payload, at + 1, payload[at], 8, out);
    } else if control < 128 {
        lemma_failure_inside_from(
            payload,
            at + 1,
            next_control(control),
            (bits - 1) as nat,
            out.push(payload[at]),
        );
    } else {
        match reference_at(payload, at) {
            Err(error) => {},
            Ok((None, next)) => {
                lemma_failure_inside_from(payload, next, 0, 0, out);
            },
            Ok((Some(reference), next)) => {
                if reference.offset <= out.len() {
                    lemma_failure_inside_from(
                        payload,
                        next,
                        next_control(control),
                        (bits - 1) as nat,
                        copy_back(out, reference.offset as int, reference.length as nat),
                    );
                }
            },
        }
    }
}

/// A failure of a payload points at one of its bytes.
pub proof fn lemma_failure_inside(payload: Seq<u8>, out: Seq<u8>)
    requires
        payload.len() <= usize::MAX,
    ensures
        match expand(payload, out) {
            Ok(_) => true,
            Err(error) => error.offset < payload.len(),
        },
{
    if payload.len() > 0 {
        lemma_failure_inside_from(payload, 1, 0, 0, out.push(payload[0]));
    }
}

} // verus!
