use vstd::prelude::*;
use vstd::arithmetic::div_mod::{
    lemma_fundamental_div_mod,
    lemma_fundamental_div_mod_converse,
    lemma_small_mod,
};
use crate::error::DecodeError;
use crate::expand::{copy_back, expand, expand_from, next_control, reference_offset};

verus! {

/// A copy of `count` bytes from `offset` places back leaves what was there
/// and repeats the last `offset` bytes of it over and over: the byte at index
/// `index` of the new part is the byte at `index % offset` of those.
pub proof fn lemma_copy_back_repeats(out: Seq<u8>, offset: int, count: nat, index: int)
    requires
        1 <= offset <= out.len(),
        0 <= index < out.len() + count,
    ensures
        copy_back(out, offset, count).len() == out.len() + count,
        copy_back(out, offset, count)[index] == if index < out.len() {
            out[index]
        } else {
            out[out.len() - offset + (index - out.len()) % offset]
        },
    decreases count,
{
    if count > 0 {
        let len = out.len() as int;
        let longer = out.push(out[len - offset]);
        lemma_copy_back_repeats(longer, offset, (count - 1) as nat, index);
        if index == len {
            lemma_small_mod(0, offset as nat);
        } else if index > len {
            let k = index - len;
            let m = (k - 1) % offset;
            lemma_fundamental_div_mod(k - 1, offset);
            if m + 1 < offset {
                lemma_fundamental_div_mod_converse(k, offset, (k - 1) / offset, m + 1);
            } else {
                assert(offset * ((k - 1) / offset + 1) == offset * ((k - 1) / offset) + offset)
                    by (nonlinear_arith);
                lemma_fundamental_div_mod_converse(k, offset, (k - 1) / offset + 1, 0);
            }
        }
    }
}

/// A copy that is no longer than its distance appends a slice of what was
/// there before it began.
pub proof fn lemma_copy_back_slice(out: Seq<u8>, offset: int, count: nat)
    requires
        1 <= offset <= out.len(),
        count <= offset,
    ensures
        copy_back(out, offset, count) == out + out.subrange(
            out.len() - offset,
            out.len() - offset + count,
        ),
{
    let copied = copy_back(out, offset, count);
    let joined = out + out.subrange(out.len() - offset, out.len() - offset + count);
    if count == 0 {
        assert(copied =~= joined);
    } else {
        lemma_copy_back_repeats(out, offset, count, 0);
        assert forall|index: int| 0 <= index < copied.len() implies copied[index]
            == joined[index] by {
            lemma_copy_back_repeats(out, offset, count, index);
            if index >= out.len() {
                if index - out.len() < offset {
                    lemma_small_mod((index - out.len()) as nat, offset as nat);
                }
            }
        }
        assert(copied =~= joined);
    }
}

/// Every byte that a copy appends equals the byte `offset` places before it
/// in the result, be that a byte that was there before the copy began or one
/// that the same copy appended.
pub proof fn lemma_copy_back_self_reference(out: Seq<u8>, offset: int, count: nat, index: int)
    requires
        1 <= offset <= out.len(),
        out.len() <= index < out.len() + count,
    ensures
        copy_back(out, offset, count)[index] == copy_back(out, offset, count)[index - offset],
{
    lemma_copy_back_repeats(out, offset, count, index);
    lemma_copy_back_repeats(out, offset, count, index - offset);
    let k = index - out.len();
    if k >= offset {
        lemma_fundamental_div_mod(k, offset);
        assert(offset * (k / offset - 1) == offset * (k / offset) - offset) by (nonlinear_arith);
        lemma_fundamental_div_mod_converse(k - offset, offset, k / offset - 1, k % offset);
    } else {
        lemma_small_mod(k as nat, offset as nat);
    }
}

/// A reference field that spells distance 0 ends the control byte that called
/// for it: nothing is appended, the bits that were left are dropped, and
/// decoding goes on behind the field with a fresh control byte.
pub proof fn lemma_stop_mark(payload: Seq<u8>, at: int, control: u8, bits: nat, out: Seq<u8>)
    requires
        0 <= at,
        at + 1 < payload.len(),
        bits > 0,
        control >= 128,
        reference_offset(payload[at], payload[at + 1]) == 0,
    ensures
        expand_from(payload, at, control, bits, out) == expand_from(payload, at + 2, 0, 0, out),
        at + 2 < payload.len() ==> expand_from(payload, at, control, bits, out) == expand_from(
            payload,
            at + 3,
            payload[at + 2],
            8,
            out,
        ),
        at + 2 == payload.len() ==> expand_from(payload, at, control, bits, out) == Ok::<
            Seq<u8>,
            DecodeError,
        >(out),
{
}

/// The first `count` bytes of `data`, or all of it where it is shorter.
pub open spec fn head(data: Seq<u8>, count: int) -> Seq<u8> {
    if data.len() <= count {
        data
    } else {
        data.take(count)
    }
}

/// `data` in groups of up to eight bytes, each behind a control byte whose
/// bits are all clear.
pub open spec fn literal_groups(data: Seq<u8>) -> Seq<u8>
    decreases data.len(),
{
    if data.len() == 0 {
        Seq::empty()
    } else {
        seq![0u8] + head(data, 8) + literal_groups(data.skip(head(data, 8).len() as int))
    }
}

/// The payload that holds `data` without a single reference: its first byte,
/// then the rest in groups behind clear control bytes.
pub open spec fn literal_payload(data: Seq<u8>) -> Seq<u8> {
    seq![data[0]] + literal_groups(data.skip(1))
}

/// Under clear bits, bytes go to the output as they are.
proof fn lemma_literal_run(payload: Seq<u8>, at: int, bits: nat, out: Seq<u8>, count: nat)
    requires
        0 <= at,
        at + count <= payload.len(),
        count <= bits,
    ensures
        expand_from(payload, at, 0, bits, out) == expand_from(
            payload,
            at + count,
            0,
            (bits - count) as nat,
            out + payload.subrange(at, at + count),
        ),
    decreases count,
{
    if count == 0 {
        assert(out + payload.subrange(at, at) =~= out);
    } else {
        assert(next_control(0) == 0);
        lemma_literal_run(payload, at + 1, (bits - 1) as nat, out.push(payload[at]), (count - 1) as nat);
        assert(out.push(payload[at]) + payload.subrange(at + 1, at + count) =~= out
            + payload.subrange(at, at + count));
    }
}

/// Groups behind clear control bytes decode to the bytes they hold.
proof fn lemma_literal_groups(payload: Seq<u8>, at: int, data: Seq<u8>, out: Seq<u8>)
    requires
        0 <= at <= payload.len(),
        payload.skip(at) == literal_groups(data),
    ensures
        expand_from(payload, at, 0, 0, out) == Ok::<Seq<u8>, DecodeError>(out + data),
    decreases data.len(),
{
    if data.len() == 0 {
        assert(payload.skip(at).len() == 0);
        assert(out + data =~= out);
    } else {
        let group = head(data, 8);
        let rest = data.skip(group.len() as int);
        let tail = literal_groups(rest);
        let count = group.len();
        let encoded = seq![0u8] + group + tail;
        assert(payload.skip(at) == encoded);
        assert(encoded.len() == 1 + count + tail.len());
        assert(payload.len() - at == encoded.len());
        assert(payload[at] == encoded[0]);
        assert(payload.subrange(at + 1, at + 1 + count) =~= group) by {
            assert forall|i: int| 0 <= i < count implies payload[at + 1 + i] == group[i] by {
                assert(payload[at + 1 + i] == payload.skip(at)[1 + i]);
                assert(encoded[1 + i] == group[i]);
            }
        }
        assert(payload.skip(at + 1 + count) =~= tail) by {
            assert forall|i: int| 0 <= i < tail.len() implies payload[at + 1 + count + i]
                == tail[i] by {
                assert(payload[at + 1 + count + i] == payload.skip(at)[1 + count + i]);
                assert(encoded[1 + count + i] == tail[i]);
            }
        }
        lemma_literal_run(payload, at + 1, 8, out, count);
        lemma_literal_groups(payload, at + 1 + count, rest, out + group);
        assert((out + group) + rest =~= out + data);
        let next = at + 1 + count;
        assert(expand_from(payload, next, 0, (8 - count) as nat, out + group) == expand_from(
            payload,
            next,
            0,
            0,
            out + group,
        ));
    }
}

/// A payload without references decodes to the bytes that were put into it:
/// the control bytes add nothing and take nothing away.
pub proof fn lemma_literals_decode_to_themselves(data: Seq<u8>, out: Seq<u8>)
    requires
        data.len() >= 1,
    ensures
        expand(literal_payload(data), out) == Ok::<Seq<u8>, DecodeError>(out + data),
{
    let payload = literal_payload(data);
    assert(payload.skip(1) =~= literal_groups(data.skip(1)));
    lemma_literal_groups(payload, 1, data.skip(1), out.push(data[0]));
    assert(out.push(data[0]) + data.skip(1) =~= out + data);
}

} // verus!
