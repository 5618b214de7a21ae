use jam_bitmap::error::{DecodeError, ErrorKind};
use jam_bitmap::expand::{append_copy, expand_block, read_reference, BackReference};

#[test]
fn literals_only_reproduce_the_input() {
    let payload = [b'A', 0x00, b'B', b'C', b'D'];
    assert_eq!(expand_block(&payload, Vec::new()), Ok(b"ABCD".to_vec()));
}

#[test]
fn literals_over_several_control_bytes() {
    let mut payload = vec![1u8, 0x00];
    payload.extend_from_slice(&[2, 3, 4, 5, 6, 7, 8, 9]);
    payload.push(0x00);
    payload.extend_from_slice(&[10, 11, 12]);
    let expected: Vec<u8> = (1..=12).collect();
    assert_eq!(expand_block(&payload, Vec::new()), Ok(expected));
}

#[test]
fn output_goes_behind_what_was_decoded_before() {
    let payload = [b'c', 0x00, b'd'];
    assert_eq!(expand_block(&payload, b"ab".to_vec()), Ok(b"abcd".to_vec()));
}

#[test]
fn empty_payload_adds_nothing() {
    assert_eq!(expand_block(&[], b"ab".to_vec()), Ok(b"ab".to_vec()));
}

#[test]
fn payload_may_end_behind_a_control_byte() {
    let payload = [b'a', 0x00];
    assert_eq!(expand_block(&payload, Vec::new()), Ok(b"a".to_vec()));
}

#[test]
fn set_bits_behind_the_payload_end_are_never_consumed() {
    let payload = [b'a', 0x7F, b'b'];
    assert_eq!(expand_block(&payload, Vec::new()), Ok(b"ab".to_vec()));
}

#[test]
fn reference_without_overlap_copies_a_slice() {
    // three literals, then a reference: 4 back, 3 long
    let payload = [b'a', 0x10, b'b', b'c', b'd', 0x0F, 0x04];
    assert_eq!(expand_block(&payload, Vec::new()), Ok(b"abcdabc".to_vec()));
}

#[test]
fn reference_with_overlap_repeats_what_it_wrote() {
    // 1 back, 17 long
    let payload = [b'a', 0x80, 0x01, 0x01];
    assert_eq!(expand_block(&payload, Vec::new()), Ok(vec![b'a'; 18]));
}

#[test]
fn reference_with_overlap_matches_a_simulation() {
    // 3 back, 10 long, on "xyz"
    let payload = [b'x', 0x20, b'y', b'z', 0x08, 0x03];
    let mut expected = b"xyz".to_vec();
    for _ in 0..10 {
        let byte = expected[expected.len() - 3];
        expected.push(byte);
    }
    assert_eq!(expected, b"xyzxyzxyzxyzx".to_vec());
    assert_eq!(expand_block(&payload, Vec::new()), Ok(expected));
}

#[test]
fn append_copy_without_overlap() {
    let mut out = b"hello".to_vec();
    append_copy(&mut out, 5, 3);
    assert_eq!(out, b"hellohel".to_vec());
}

#[test]
fn append_copy_with_overlap() {
    let mut out = b"ab".to_vec();
    append_copy(&mut out, 2, 5);
    assert_eq!(out, b"abababa".to_vec());
    append_copy(&mut out, 1, 0);
    assert_eq!(out, b"abababa".to_vec());
}

#[test]
fn round_trip_all_zero_row() {
    // 0, then 1 back, 31 long
    let payload = [0u8, 0x80, 0x00, 0x01, 13];
    assert_eq!(expand_block(&payload, Vec::new()), Ok(vec![0u8; 32]));
}

#[test]
fn round_trip_run_of_fifty() {
    // 'x', then 1 back, 49 long
    let payload = [b'x', 0x80, 0x00, 0x01, 31];
    assert_eq!(expand_block(&payload, Vec::new()), Ok(vec![b'x'; 50]));
}

#[test]
fn round_trip_alternating_pattern() {
    // 'a', 'b', then 2 back, 46 long
    let payload = [b'a', 0x40, b'b', 0x00, 0x02, 28];
    let expected: Vec<u8> = (0..48).map(|i| if i % 2 == 0 { b'a' } else { b'b' }).collect();
    assert_eq!(expand_block(&payload, Vec::new()), Ok(expected));
}

#[test]
fn length_from_low_nibble_one_is_seventeen() {
    assert_eq!(
        read_reference(&[0x01, 0x05], 0),
        Ok((Some(BackReference { offset: 5, length: 17 }), 2))
    );
}

#[test]
fn length_from_low_nibble_fifteen_is_three() {
    assert_eq!(
        read_reference(&[0x0F, 0x05], 0),
        Ok((Some(BackReference { offset: 5, length: 3 }), 2))
    );
}

#[test]
fn length_from_escape_byte_zero_is_eighteen() {
    assert_eq!(
        read_reference(&[0x00, 0x05, 0], 0),
        Ok((Some(BackReference { offset: 5, length: 18 }), 3))
    );
}

#[test]
fn length_from_escape_byte_237_is_255() {
    assert_eq!(
        read_reference(&[0x00, 0x05, 237], 0),
        Ok((Some(BackReference { offset: 5, length: 255 }), 3))
    );
}

#[test]
fn length_from_escape_byte_255_is_273() {
    assert_eq!(
        read_reference(&[0xFF, 0x00, 0xF0, 0xFF, 0xFF], 2),
        Ok((Some(BackReference { offset: 0xFFF, length: 273 }), 5))
    );
}

#[test]
fn offset_takes_the_high_nibble_above_the_second_byte() {
    assert_eq!(
        read_reference(&[0x1E, 0x23], 0),
        Ok((Some(BackReference { offset: 0x123, length: 4 }), 2))
    );
    assert_eq!(
        read_reference(&[0xF2, 0xFF], 0),
        Ok((Some(BackReference { offset: 0xFFF, length: 16 }), 2))
    );
}

#[test]
fn offset_zero_is_the_stop_mark() {
    assert_eq!(read_reference(&[0x05, 0x00], 0), Ok((None, 2)));
    // the stop mark is told before an escape byte is looked for
    assert_eq!(read_reference(&[0x00, 0x00], 0), Ok((None, 2)));
}

#[test]
fn reference_field_cut_short_is_truncated() {
    assert_eq!(
        read_reference(&[0x05], 0),
        Err(DecodeError { kind: ErrorKind::Truncated, offset: 0 })
    );
    assert_eq!(
        read_reference(&[9, 9, 0x00, 0x05], 2),
        Err(DecodeError { kind: ErrorKind::Truncated, offset: 2 })
    );
    assert_eq!(
        read_reference(&[9, 9], 2),
        Err(DecodeError { kind: ErrorKind::Truncated, offset: 2 })
    );
    assert_eq!(
        read_reference(&[9, 9], 7),
        Err(DecodeError { kind: ErrorKind::Truncated, offset: 7 })
    );
}

#[test]
fn stop_mark_drops_the_rest_of_the_control_byte() {
    // every bit of the first control byte is set; the stop mark ends it, and
    // the byte behind the mark is the next control byte
    let payload = [b'a', 0xFF, 0x05, 0x00, 0x00, b'b', b'c'];
    assert_eq!(expand_block(&payload, Vec::new()), Ok(b"abc".to_vec()));
}

#[test]
fn stop_mark_at_the_payload_end_ends_the_block() {
    let payload = [b'a', 0x40, b'b', 0x00, 0x00];
    assert_eq!(expand_block(&payload, Vec::new()), Ok(b"ab".to_vec()));
}

#[test]
fn reference_before_the_start_of_output_is_invalid() {
    let payload = [b'a', 0x80, 0x0F, 0x05];
    assert_eq!(
        expand_block(&payload, Vec::new()),
        Err(DecodeError { kind: ErrorKind::InvalidReference, offset: 2 })
    );
}

#[test]
fn reference_to_the_very_start_of_output_is_valid() {
    let payload = [b'c', 0x80, 0x0F, 0x03];
    assert_eq!(expand_block(&payload, b"ab".to_vec()), Ok(b"abcabc".to_vec()));
}

#[test]
fn reference_reaches_into_earlier_blocks() {
    let before: Vec<u8> = (0..300).map(|i| (i % 251) as u8).collect();
    // 0x123 = 291 back, 4 long
    let payload = [7u8, 0x80, 0x1E, 0x23];
    let mut expected = before.clone();
    expected.push(7);
    for _ in 0..4 {
        let byte = expected[expected.len() - 291];
        expected.push(byte);
    }
    assert_eq!(expand_block(&payload, before), Ok(expected));
}

#[test]
fn payload_cut_inside_a_reference_is_truncated() {
    assert_eq!(
        expand_block(&[b'a', 0x80, 0x0F], Vec::new()),
        Err(DecodeError { kind: ErrorKind::Truncated, offset: 2 })
    );
    assert_eq!(
        expand_block(&[b'a', 0x80, 0x00, 0x01], Vec::new()),
        Err(DecodeError { kind: ErrorKind::Truncated, offset: 2 })
    );
}

#[test]
fn control_bits_are_consumed_leading_bit_first() {
    // 0xA0: reference, literal, reference, then literals
    let payload = [b'a', 0xA0, 0x0F, 0x01, b'b', 0x0E, 0x02, b'c'];
    assert_eq!(expand_block(&payload, Vec::new()), Ok(b"aaaabababc".to_vec()));
}
