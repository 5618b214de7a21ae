use jam_bitmap::bmp::{create_color_table, read_image_header, BmpHeader, ImageHeader};
use jam_bitmap::cursor::ByteCursor;
use jam_bitmap::error::{DecodeError, ErrorKind};

#[test]
fn to_vec_lays_out_headers_table_and_bitmap() {
    let mut image = BmpHeader {
        bits_per_pixel: 8,
        height: 2,
        width: 0x0102,
        color_table: vec![[1, 2, 3, 0], [4, 5, 6, 0]],
        bitmap: vec![0xAA, 0xBB, 0xCC],
    };
    let file = image.to_vec();
    let mut expected: Vec<u8> = vec![b'B', b'M'];
    expected.extend_from_slice(&[65, 0, 0, 0]); // 14 + 40 + 8 + 3
    expected.extend_from_slice(&[0, 0, 0, 0]);
    expected.extend_from_slice(&[62, 0, 0, 0]); // 14 + 40 + 8
    expected.extend_from_slice(&[40, 0, 0, 0]);
    expected.extend_from_slice(&[2, 1, 0, 0]);
    expected.extend_from_slice(&[2, 0, 0, 0]);
    expected.extend_from_slice(&[1, 0]);
    expected.extend_from_slice(&[8, 0]);
    expected.extend_from_slice(&[0, 0, 0, 0]);
    expected.extend_from_slice(&[3, 0, 0, 0]);
    expected.extend_from_slice(&[0, 0, 0, 0]);
    expected.extend_from_slice(&[0, 0, 0, 0]);
    expected.extend_from_slice(&[2, 0, 0, 0]);
    expected.extend_from_slice(&[2, 0, 0, 0]);
    expected.extend_from_slice(&[1, 2, 3, 0, 4, 5, 6, 0]);
    expected.extend_from_slice(&[0xAA, 0xBB, 0xCC]);
    assert_eq!(file, expected);
    assert_eq!(file.len(), 65);
    assert_eq!(image.bitmap, vec![0xAA, 0xBB, 0xCC]);
    assert_eq!(image.color_table, vec![[1, 2, 3, 0], [4, 5, 6, 0]]);
}

#[test]
fn to_vec_of_an_empty_image_is_the_two_headers() {
    let mut image =
        BmpHeader { bits_per_pixel: 0, height: 0, width: 0, color_table: vec![], bitmap: vec![] };
    let file = image.to_vec();
    assert_eq!(file.len(), 54);
    assert_eq!(&file[..14], &[b'B', b'M', 54, 0, 0, 0, 0, 0, 0, 0, 54, 0, 0, 0]);
    assert_eq!(&file[14..18], &[40, 0, 0, 0]);
    assert_eq!(&file[26..30], &[1, 0, 0, 0]);
}

#[test]
fn to_vec_writes_sizes_in_four_bytes_and_negative_numbers_in_twos_complement() {
    let mut image = BmpHeader {
        bits_per_pixel: 4,
        height: -2,
        width: 0x01020304,
        color_table: vec![[0, 0, 0, 0]; 256],
        bitmap: vec![7; 0x1_0203],
    };
    let file = image.to_vec();
    // 54 + 1024 + 66051 = 67129 = 0x01_0639
    assert_eq!(&file[2..6], &[0x39, 0x06, 0x01, 0x00]);
    assert_eq!(&file[10..14], &[0x36, 0x04, 0, 0]);
    assert_eq!(&file[18..22], &[4, 3, 2, 1]);
    assert_eq!(&file[22..26], &[0xFE, 0xFF, 0xFF, 0xFF]);
    assert_eq!(&file[28..30], &[4, 0]);
    assert_eq!(&file[34..38], &[0x03, 0x02, 0x01, 0x00]);
    assert_eq!(&file[46..50], &[0, 1, 0, 0]);
    assert_eq!(&file[50..54], &[0, 1, 0, 0]);
    assert_eq!(file.len(), 67129);
    assert_eq!(file[54 + 1024], 7);
}

#[test]
fn color_table_of_few_colors_has_sixteen_entries() {
    let data = [1u8, 2, 3, 4, 5, 6, 0xEE];
    let mut cursor = ByteCursor::new(&data);
    let table = create_color_table(&mut cursor, 2).unwrap();
    assert_eq!(table.len(), 16);
    assert_eq!(table[0], [1, 2, 3, 0]);
    assert_eq!(table[1], [4, 5, 6, 0]);
    for entry in &table[2..] {
        assert_eq!(*entry, [0, 0, 0, 0]);
    }
    assert_eq!(cursor.position(), 6);
}

#[test]
fn color_table_of_sixteen_colors_has_sixteen_entries() {
    let data: Vec<u8> = (0..48).collect();
    let mut cursor = ByteCursor::new(&data);
    let table = create_color_table(&mut cursor, 16).unwrap();
    assert_eq!(table.len(), 16);
    assert_eq!(table[15], [45, 46, 47, 0]);
}

#[test]
fn color_table_of_seventeen_colors_has_256_entries() {
    let data: Vec<u8> = (0..51).collect();
    let mut cursor = ByteCursor::new(&data);
    let table = create_color_table(&mut cursor, 17).unwrap();
    assert_eq!(table.len(), 256);
    assert_eq!(table[16], [48, 49, 50, 0]);
    assert_eq!(table[17], [0, 0, 0, 0]);
    assert_eq!(table[255], [0, 0, 0, 0]);
}

#[test]
fn color_table_without_colors_is_all_zero() {
    let data: [u8; 0] = [];
    let mut cursor = ByteCursor::new(&data);
    let table = create_color_table(&mut cursor, 0).unwrap();
    assert_eq!(table, vec![[0u8, 0, 0, 0]; 16]);
    assert_eq!(cursor.position(), 0);
}

#[test]
fn color_table_cut_short_is_end_of_stream() {
    let data = [1u8, 2, 3, 4, 5];
    let mut cursor = ByteCursor::new(&data);
    assert_eq!(
        create_color_table(&mut cursor, 2),
        Err(DecodeError { kind: ErrorKind::EndOfStream, offset: 5 })
    );
    assert_eq!(cursor.position(), 5);
}

#[test]
fn image_header_is_six_bytes() {
    let data = [8u8, 16, 0x40, 0x01, 0x20, 0x00, 0xEE];
    let mut cursor = ByteCursor::new(&data);
    assert_eq!(
        read_image_header(&mut cursor),
        Ok(ImageHeader {
            bits_per_pixel: 8,
            number_of_colors: 16,
            width_in_px: 320,
            height_in_px: 32
        })
    );
    assert_eq!(cursor.position(), 6);
}

#[test]
fn image_header_cut_short_fails_at_the_missing_field() {
    let data = [8u8, 16, 0x40, 0x01, 0x20, 0x00];
    let expected = [
        (ErrorKind::EndOfStream, 0usize),
        (ErrorKind::EndOfStream, 1),
        (ErrorKind::EndOfStream, 2),
        (ErrorKind::Truncated, 2),
        (ErrorKind::EndOfStream, 4),
        (ErrorKind::Truncated, 4),
    ];
    for len in 0..6 {
        let mut cursor = ByteCursor::new(&data[..len]);
        let (kind, offset) = expected[len];
        assert_eq!(read_image_header(&mut cursor), Err(DecodeError { kind, offset }));
        assert_eq!(cursor.position(), offset);
    }
}

#[test]
fn bytes_per_row_is_width_times_bits_in_whole_bytes() {
    let header =
        |width_in_px, bits_per_pixel| ImageHeader {
            bits_per_pixel,
            number_of_colors: 0,
            width_in_px,
            height_in_px: 0,
        };
    assert_eq!(header(320, 8).bytes_per_row(), Some(320));
    assert_eq!(header(64, 4).bytes_per_row(), Some(32));
    assert_eq!(header(9, 1).bytes_per_row(), Some(1));
    assert_eq!(header(7, 1).bytes_per_row(), Some(0));
    assert_eq!(header(0, 8).bytes_per_row(), Some(0));
    assert_eq!(header(65535, 8).bytes_per_row(), Some(65535));
    assert_eq!(header(65535, 9).bytes_per_row(), None);
    assert_eq!(header(65535, 255).bytes_per_row(), None);
    assert_eq!(header(21845, 24).bytes_per_row(), Some(65535));
    assert_eq!(header(21846, 24).bytes_per_row(), None);
}
