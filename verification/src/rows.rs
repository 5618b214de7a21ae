use vstd::prelude::*;
use crate::error::{DecodeError, ErrorKind};
use crate::expand::{bytes_of, failure_at};

verus! {

/// Row `y` of a buffer whose rows are `width` bytes long.
pub open spec fn row(buffer: Seq<u8>, width: int, y: int) -> Seq<u8> {
    buffer.subrange(y * width, (y + 1) * width)
}

/// The first `rows` rows of `buffer` in reverse order: the last of them, then
/// the rows before it, flipped in the same way.
pub open spec fn flip_rows(buffer: Seq<u8>, width: int, rows: nat) -> Seq<u8>
    decreases rows,
{
    if rows == 0 {
        Seq::empty()
    } else {
        row(buffer, width, rows - 1) + flip_rows(buffer, width, (rows - 1) as nat)
    }
}

/// The image of `rows` rows of `width` bytes that `buffer` holds bottom row
/// first, with its top row first; a failure at the buffer's end where the
/// buffer is too short to hold that many rows.
pub open spec fn reorder(buffer: Seq<u8>, width: int, rows: nat) -> Result<Seq<u8>, DecodeError> {
    if width * rows > buffer.len() {
        Err(failure_at(ErrorKind::Truncated, buffer.len() as int))
    } else {
        Ok(flip_rows(buffer, width, rows))
    }
}

/// Flipping keeps the rows whole: the result is `rows` rows long, and its row
/// `y` is row `rows - 1 - y` of the buffer.
pub proof fn lemma_flip_rows(buffer: Seq<u8>, width: int, rows: nat)
    requires
        0 <= width,
        width * rows <= buffer.len(),
    ensures
        flip_rows(buffer, width, rows).len() == width * rows,
        forall|y: int|
            0 <= y < rows ==> #[trigger] row(flip_rows(buffer, width, rows), width, y) == row(
                buffer,
                width,
                rows - 1 - y,
            ),
    decreases rows,
{
    if rows == 0 {
        assert(width * rows == 0) by (nonlinear_arith)
            requires
                rows == 0,
        ;
    } else {
        let rest = (rows - 1) as nat;
        assert(width * rows == width * rest + width && (rows - 1) * width == width * rest && (rows
            - 1 + 1) * width == width * rows) by (nonlinear_arith)
            requires
                rest == rows - 1,
        ;
        assert(0 <= width * rest) by (nonlinear_arith)
            requires
                0 <= width,
                0 <= rest,
        ;
        lemma_flip_rows(buffer, width, rest);
        let flipped = flip_rows(buffer, width, rows);
        let tail = flip_rows(buffer, width, rest);
        assert(row(buffer, width, rows - 1).len() == width);
        assert forall|y: int| 0 <= y < rows implies #[trigger] row(flipped, width, y) == row(
            buffer,
            width,
            rows - 1 - y,
        ) by {
            if y == 0 {
                assert(row(flipped, width, 0) =~= row(buffer, width, rows - 1));
            } else {
                assert((y - 1) * width >= 0 && (y - 1) * width + width == y * width && y * width
                    + width == (y + 1) * width && (y + 1) * width <= width * rows)
                    by (nonlinear_arith)
                    requires
                        1 <= y < rows,
                        0 <= width,
                ;
                assert(row(flipped, width, y) =~= row(tail, width, y - 1));
                assert(rest - 1 - (y - 1) == rows - 1 - y);
            }
        }
    }
}

/// Turns an image that is stored bottom row first into one that is stored top
/// row first.
///
/// The result holds `height_in_rows` rows of `bytes_per_row` bytes; bytes of
/// `buffer` behind them are left out. Fails with `Truncated`, at the buffer's
/// length, where the buffer holds fewer bytes than that many rows.
pub fn reorder_rows(buffer: &[u8], bytes_per_row: usize, height_in_rows: usize) -> (result: Result<
    Vec<u8>,
    DecodeError,
>)
    ensures
        bytes_of(result) == reorder(buffer@, bytes_per_row as int, height_in_rows as nat),
{
    let len = buffer.len();
    let mut flipped: Vec<u8> = Vec::new();
    if bytes_per_row == 0 {
        proof {
            lemma_flip_empty_rows(buffer@, height_in_rows as nat);
            assert(bytes_per_row * height_in_rows == 0) by (nonlinear_arith)
                requires
                    bytes_per_row == 0,
            ;
        }
        return Ok(flipped);
    }
    if height_in_rows > len / bytes_per_row {
        proof {
            assert(bytes_per_row * height_in_rows > len) by (nonlinear_arith)
                requires
                    height_in_rows > len / bytes_per_row,
                    bytes_per_row > 0,
            ;
        }
        return Err(DecodeError { kind: ErrorKind::Truncated, offset: len });
    }
    assert(bytes_per_row * height_in_rows <= len) by (nonlinear_arith)
        requires
            height_in_rows <= len / bytes_per_row,
            bytes_per_row > 0,
    ;
    let mut y: usize = height_in_rows;
    while y > 0
        invariant
            len == buffer@.len(),
            y <= height_in_rows,
            bytes_per_row * height_in_rows <= len,
            flipped@ + flip_rows(buffer@, bytes_per_row as int, y as nat) == flip_rows(
                buffer@,
                bytes_per_row as int,
                height_in_rows as nat,
            ),
        decreases y,
    {
        y = y - 1;
        assert(0 <= y * bytes_per_row && (y + 1) * bytes_per_row == y * bytes_per_row
            + bytes_per_row && (y + 1) * bytes_per_row <= bytes_per_row * height_in_rows)
            by (nonlinear_arith)
            requires
                0 <= y < height_in_rows,
        ;
        let start: usize = y * bytes_per_row;
        let ghost before = flipped@;
        let mut x: usize = 0;
        while x < bytes_per_row
            invariant
                len == buffer@.len(),
                x <= bytes_per_row,
                start + bytes_per_row <= len,
                flipped@ == before + buffer@.subrange(start as int, start + x),
            decreases bytes_per_row - x,
        {
            flipped.push(buffer[start + x]);
            x = x + 1;
            assert(flipped@ =~= before + buffer@.subrange(start as int, start + x));
        }
        assert(flipped@ + flip_rows(buffer@, bytes_per_row as int, y as nat) =~= before + flip_rows(
            buffer@,
            bytes_per_row as int,
            (y + 1) as nat,
        ));
    }
    assert(flipped@ =~= flipped@ + flip_rows(buffer@, bytes_per_row as int, 0));
    Ok(flipped)
}

/// Rows without bytes make an image without bytes.
proof fn lemma_flip_empty_rows(buffer: Seq<u8>, rows: nat)
    ensures
        flip_rows(buffer, 0, rows) == Seq::<u8>::empty(),
    decreases rows,
{
    if rows > 0 {
        lemma_flip_empty_rows(buffer, (rows - 1) as nat);
        assert(row(buffer, 0, rows - 1) =~= Seq::<u8>::empty());
        assert(flip_rows(buffer, 0, rows) =~= Seq::<u8>::empty());
    }
}

} // verus!
