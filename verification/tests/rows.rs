use jam_bitmap::error::{DecodeError, ErrorKind};
use jam_bitmap::rows::reorder_rows;

#[test]
fn two_rows_of_four_swap() {
    assert_eq!(reorder_rows(b"ABCDEFGH", 4, 2), Ok(b"EFGHABCD".to_vec()));
}

#[test]
fn three_rows_of_two_reverse() {
    assert_eq!(reorder_rows(&[1, 2, 3, 4, 5, 6], 2, 3), Ok(vec![5, 6, 3, 4, 1, 2]));
}

#[test]
fn one_row_stays() {
    assert_eq!(reorder_rows(&[1, 2, 3], 3, 1), Ok(vec![1, 2, 3]));
}

#[test]
fn bytes_behind_the_rows_are_left_out() {
    assert_eq!(reorder_rows(&[1, 2, 3, 4, 5], 2, 2), Ok(vec![3, 4, 1, 2]));
}

#[test]
fn no_rows_or_no_width_give_an_empty_image() {
    assert_eq!(reorder_rows(&[1, 2, 3], 2, 0), Ok(vec![]));
    assert_eq!(reorder_rows(&[1, 2, 3], 0, 9), Ok(vec![]));
    assert_eq!(reorder_rows(&[], 0, usize::MAX), Ok(vec![]));
}

#[test]
fn too_few_bytes_for_the_rows_is_truncated() {
    assert_eq!(
        reorder_rows(&[1, 2, 3, 4, 5, 6, 7], 4, 2),
        Err(DecodeError { kind: ErrorKind::Truncated, offset: 7 })
    );
    assert_eq!(
        reorder_rows(&[1, 2, 3], usize::MAX, usize::MAX),
        Err(DecodeError { kind: ErrorKind::Truncated, offset: 3 })
    );
}
