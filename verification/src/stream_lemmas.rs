use vstd::prelude::*;
use crate::error::ErrorKind;
use crate::expand::expand;
use crate::stream::{block_at, decode_from, decompress, BlockView, Decoded};

verus! {

/// A raw block ends the decoding: its payload goes to the output as it is,
/// and reading stops behind it.
pub proof fn lemma_raw_block_ends_decoding(
    stream: Seq<u8>,
    pos: int,
    out: Seq<u8>,
    block: BlockView,
)
    requires
        block_at(stream, pos) == Ok::<Option<BlockView>, crate::error::DecodeError>(Some(block)),
        block.is_raw(),
    ensures
        decode_from(stream, pos, out) == (Decoded {
            result: Ok(out + block.payload),
            end: pos + 4 + block.compressed_size,
        }),
{
}

/// Nothing behind a raw block is read: two streams that are the same up to
/// the end of a raw block decode to the same.
pub proof fn lemma_nothing_read_behind_raw_block(
    stream: Seq<u8>,
    other: Seq<u8>,
    pos: int,
    out: Seq<u8>,
    block: BlockView,
)
    requires
        0 <= pos,
        block_at(stream, pos) == Ok::<Option<BlockView>, crate::error::DecodeError>(Some(block)),
        block.is_raw(),
        other.len() >= pos + 4 + block.compressed_size,
        other.take(pos + 4 + block.compressed_size) == stream.take(
            pos + 4 + block.compressed_size,
        ),
    ensures
        decode_from(other, pos, out) == decode_from(stream, pos, out),
{
    let end = pos + 4 + block.compressed_size;
    assert forall|i: int| 0 <= i < end implies other[i] == stream[i] by {
        assert(other[i] == other.take(end)[i]);
        assert(stream[i] == stream.take(end)[i]);
    }
    assert(other.subrange(pos + 4, end) =~= stream.subrange(pos + 4, end));
}

/// A stream that was read up to its last byte cannot do without that byte:
/// with it removed, decoding fails with `Truncated`, whatever rows are asked
/// for, and never yields a shorter output.
pub proof fn lemma_cut_stream_is_truncated(stream: Seq<u8>, pos: int, out: Seq<u8>)
    requires
        0 <= pos < stream.len() <= usize::MAX,
        decode_from(stream, pos, out).end == stream.len(),
    ensures
        match decode_from(stream.drop_last(), pos, out).result {
            Ok(_) => false,
            Err(error) => error.kind == ErrorKind::Truncated,
        },
        out.len() == 0 ==> forall|width: int, rows: nat|
            match #[trigger] decompress(stream.drop_last(), pos, width, rows) {
                Ok(_) => false,
                Err(error) => error.kind == ErrorKind::Truncated,
            },
    decreases stream.len() - pos,
{
    let cut = stream.drop_last();
    assert(out.len() == 0 ==> out =~= Seq::<u8>::empty());
    match block_at(stream, pos) {
        Err(error) => {},
        Ok(None) => {},
        Ok(Some(block)) => {
            let end = pos + 4 + block.compressed_size;
            if end < stream.len() {
                assert(cut.subrange(pos + 4, end) =~= stream.subrange(pos + 4, end));
                assert(block_at(cut, pos) == block_at(stream, pos));
                if !block.is_raw() {
                    match expand(block.payload, out) {
                        Err(error) => {},
                        Ok(longer) => {
                            lemma_cut_stream_is_truncated(stream, end, longer);
                        },
                    }
                }
            }
        },
    }
}

} // verus!
