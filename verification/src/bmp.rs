use vstd::prelude::*;
use crate::cursor::{le_u16, take_u16, take_u8, ByteCursor};
use crate::error::{DecodeError, ErrorKind};

verus! {

/// Length of the file header of a BMP file.
pub const LENGTH_HEADER: u32 = 14;

/// Length of the info header of a BMP file.
pub const LENGTH_BITMAP_INFO_HEADER: u32 = 40;

/// The two bytes of `value`, least significant byte first.
pub open spec fn le_bytes_u16(value: u16) -> Seq<u8> {
    seq![(value as int % 256) as u8, (value as int / 256) as u8]
}

/// The four bytes of `value`, least significant byte first.
pub open spec fn le_bytes_u32(value: u32) -> Seq<u8> {
    seq![
        (value as int % 256) as u8,
        (value as int / 256 % 256) as u8,
        (value as int / 65536 % 256) as u8,
        (value as int / 16777216) as u8,
    ]
}

/// The entries of a color table one after the other, four bytes each.
pub open spec fn flatten(table: Seq<[u8; 4]>) -> Seq<u8>
    decreases table.len(),
{
    if table.len() == 0 {
        Seq::empty()
    } else {
        flatten(table.drop_last()) + table.last()@
    }
}

/// An image with a color table, ready to be written as a BMP file.
pub struct BmpHeader {
    pub bits_per_pixel: u8,
    pub height: i32,
    pub width: i32,
    pub color_table: Vec<[u8; 4]>,
    pub bitmap: Vec<u8>,
}

impl BmpHeader {
    /// Index of the first byte of the bitmap in the file.
    pub open spec fn offset_bitmap(&self) -> int {
        LENGTH_HEADER + LENGTH_BITMAP_INFO_HEADER + 4 * self.color_table@.len()
    }

    /// Length of the file.
    pub open spec fn file_size(&self) -> int {
        self.offset_bitmap() + self.bitmap@.len()
    }

    /// The file header: the mark `BM`, the file's length, four reserved bytes
    /// and the index of the bitmap.
    pub open spec fn file_header(&self) -> Seq<u8> {
        seq![0x42u8, 0x4Du8] + le_bytes_u32(self.file_size() as u32) + seq![0u8, 0u8, 0u8, 0u8]
            + le_bytes_u32(self.offset_bitmap() as u32)
    }

    /// The info header: its own length, width and height, one color plane,
    /// the bits per pixel, no compression, the bitmap's length, no
    /// resolution, and the number of colors, given twice.
    pub open spec fn info_header(&self) -> Seq<u8> {
        le_bytes_u32(LENGTH_BITMAP_INFO_HEADER) + le_bytes_u32(self.width as u32) + le_bytes_u32(
            self.height as u32,
        ) + le_bytes_u16(1) + le_bytes_u16(self.bits_per_pixel as u16) + le_bytes_u32(0)
            + le_bytes_u32(self.bitmap@.len() as u32) + le_bytes_u32(0) + le_bytes_u32(0)
            + le_bytes_u32(self.color_table@.len() as u32) + le_bytes_u32(
            self.color_table@.len() as u32,
        )
    }

    /// The bytes of the BMP file: file header, info header, color table and
    /// bitmap.
    pub open spec fn file_bytes(&self) -> Seq<u8> {
        self.file_header() + self.info_header() + flatten(self.color_table@) + self.bitmap@
    }

    /// The image as the bytes of a BMP file.
    ///
    /// The file's length must fit the 32 bits that the file header has for it.
    pub fn to_vec(&mut self) -> (file: Vec<u8>)
        requires
            old(self).file_size() <= u32::MAX,
        ensures
            file@ == old(self).file_bytes(),
            *final(self) == *old(self),
    {
        let colors: u32 = self.color_table.len() as u32;
        let offset_bitmap: u32 = LENGTH_HEADER + LENGTH_BITMAP_INFO_HEADER + colors * 4;
        let size: u32 = offset_bitmap + self.bitmap.len() as u32;
        let mut header: Vec<u8> = Vec::new();
        header.push(0x42);
        header.push(0x4D);
        push_u32(&mut header, size);
        push_u32(&mut header, 0);
        push_u32(&mut header, offset_bitmap);
        assert(le_bytes_u32(0) =~= seq![0u8, 0u8, 0u8, 0u8]);
        assert(header@ =~= self.file_header());

        let mut bitmap_info_header: Vec<u8> = Vec::new();
        push_u32(&mut bitmap_info_header, LENGTH_BITMAP_INFO_HEADER);
        push_u32(&mut bitmap_info_header, self.width as u32);
        push_u32(&mut bitmap_info_header, self.height as u32);
        push_u16(&mut bitmap_info_header, 1);
        push_u16(&mut bitmap_info_header, self.bits_per_pixel as u16);
        push_u32(&mut bitmap_info_header, 0);
        push_u32(&mut bitmap_info_header, self.bitmap.len() as u32);
        push_u32(&mut bitmap_info_header, 0);
        push_u32(&mut bitmap_info_header, 0);
        push_u32(&mut bitmap_info_header, colors);
        push_u32(&mut bitmap_info_header, colors);
        assert(bitmap_info_header@ =~= self.info_header());

        header.append(&mut bitmap_info_header);
        let ghost headers = header@;
        let mut entry: usize = 0;
        while entry < self.color_table.len()
            invariant
                entry <= self.color_table@.len(),
                header@ == headers + flatten(self.color_table@.take(entry as int)),
            decreases self.color_table@.len() - entry,
        {
            let color: [u8; 4] = self.color_table[entry];
            let ghost before = header@;
            header.push(color[0]);
            header.push(color[1]);
            header.push(color[2]);
            header.push(color[3]);
            proof {
                let taken = self.color_table@.take(entry + 1);
                assert(taken.drop_last() =~= self.color_table@.take(entry as int));
                assert(taken.last() == color);
                assert(header@ =~= before + color@);
            }
            entry = entry + 1;
        }
        assert(self.color_table@.take(entry as int) =~= self.color_table@);
        let ghost table_end = header@;
        let mut at: usize = 0;
        while at < self.bitmap.len()
            invariant
                at <= self.bitmap@.len(),
                header@ == table_end + self.bitmap@.take(at as int),
            decreases self.bitmap@.len() - at,
        {
            header.push(self.bitmap[at]);
            at = at + 1;
            assert(header@ =~= table_end + self.bitmap@.take(at as int));
        }
        assert(self.bitmap@.take(at as int) =~= self.bitmap@);
        header
    }
}

/// Appends the two bytes of `value`, least significant byte first.
fn push_u16(out: &mut Vec<u8>, value: u16)
    ensures
        final(out)@ == old(out)@ + le_bytes_u16(value),
{
    let b0: u8 = (value & 0xff) as u8;
    let b1: u8 = (value >> 8) as u8;
    assert(b0 == (value as int % 256) as u8 && b1 == (value as int / 256) as u8) by {
        assert((value & 0xff) == value % 256 && (value >> 8) == value / 256 && (value >> 8) < 256)
            by (bit_vector);
    }
    out.push(b0);
    out.push(b1);
    assert(out@ =~= old(out)@ + le_bytes_u16(value));
}

/// Appends the four bytes of `value`, least significant byte first.
fn push_u32(out: &mut Vec<u8>, value: u32)
    ensures
        final(out)@ == old(out)@ + le_bytes_u32(value),
{
    let b0: u8 = (value & 0xff) as u8;
    let b1: u8 = ((value >> 8) & 0xff) as u8;
    let b2: u8 = ((value >> 16) & 0xff) as u8;
    let b3: u8 = (value >> 24) as u8;
    assert(b0 == (value as int % 256) as u8 && b1 == (value as int / 256 % 256) as u8 && b2 == (
    value as int / 65536 % 256) as u8 && b3 == (value as int / 16777216) as u8) by {
        assert((value & 0xff) == value % 256 && ((value >> 8) & 0xff) == value / 256 % 256 && ((
        value >> 16) & 0xff) == value / 65536 % 256 && (value >> 24) == value / 16777216 && (value
            >> 24) < 256) by (bit_vector);
    }
    out.push(b0);
    out.push(b1);
    out.push(b2);
    out.push(b3);
    assert(out@ =~= old(out)@ + le_bytes_u32(value));
}

/// How many entries the color table of an image with `number_of_colors`
/// colors has: tables are padded to 16 or to 256 entries.
pub open spec fn table_length(number_of_colors: u8) -> int {
    if number_of_colors <= 16 {
        16
    } else {
        256
    }
}

/// Whether `table` is the color table that `bytes` spell for an image with
/// `number_of_colors` colors: one entry for each color, made of its three
/// bytes and a zero, then entries of four zeros.
pub open spec fn is_color_table(table: Seq<[u8; 4]>, bytes: Seq<u8>, number_of_colors: u8) -> bool {
    &&& table.len() == table_length(number_of_colors)
    &&& forall|i: int|
        0 <= i < table.len() ==> (#[trigger] table[i])@ == if i < number_of_colors {
            seq![bytes[3 * i], bytes[3 * i + 1], bytes[3 * i + 2], 0u8]
        } else {
            seq![0u8, 0u8, 0u8, 0u8]
        }
}

/// Reads the colors of an image, three bytes each, into a color table that is
/// padded to 16 or to 256 entries.
///
/// Where the stream ends before the last color, the read fails with
/// `EndOfStream` at the stream's end, with the cursor there.
pub fn create_color_table(reader: &mut ByteCursor, number_of_colors: u8) -> (result: Result<
    Vec<[u8; 4]>,
    DecodeError,
>)
    requires
        old(reader).well_formed(),
    ensures
        match result {
            Ok(table) => {
                &&& old(reader)@.len() >= 3 * number_of_colors
                &&& is_color_table(table@, old(reader)@, number_of_colors)
                &&& final(reader).advanced_from(old(reader), 3 * number_of_colors)
            },
            Err(error) => {
                &&& old(reader)@.len() < 3 * number_of_colors
                &&& error == final(reader).failure(ErrorKind::EndOfStream)
                &&& final(reader).advanced_from(old(reader), old(reader)@.len() as int)
            },
        },
{
    let color_table_entries: usize = if number_of_colors <= 16 {
        16
    } else {
        256
    };
    let mut color_table: Vec<[u8; 4]> = Vec::new();
    while color_table.len() < color_table_entries
        invariant
            color_table@.len() <= color_table_entries,
            forall|i: int| 0 <= i < color_table@.len() ==> (#[trigger] color_table@[i])@ == seq![0u8, 0u8, 0u8, 0u8],
        decreases color_table_entries - color_table@.len(),
    {
        color_table.push([0, 0, 0, 0]);
    }
    let ghost bytes = reader@;
    let mut i: u8 = 0;
    while i < number_of_colors
        invariant
            i <= number_of_colors,
            color_table@.len() == table_length(number_of_colors),
            reader.advanced_from(old(reader), 3 * i),
            bytes == old(reader)@,
            bytes.len() >= 3 * i,
            forall|k: int|
                0 <= k < color_table@.len() ==> (#[trigger] color_table@[k])@ == if k < i {
                    seq![bytes[3 * k], bytes[3 * k + 1], bytes[3 * k + 2], 0u8]
                } else {
                    seq![0u8, 0u8, 0u8, 0u8]
                },
        decreases number_of_colors - i,
    {
        let b = match take_u8(reader) {
            Ok(byte) => byte,
            Err(error) => {
                return Err(error);
            },
        };
        let g = match take_u8(reader) {
            Ok(byte) => byte,
            Err(error) => {
                return Err(error);
            },
        };
        let r = match take_u8(reader) {
            Ok(byte) => byte,
            Err(error) => {
                return Err(error);
            },
        };
        color_table.set(i as usize, [b, g, r, 0]);
        i = i + 1;
    }
    Ok(color_table)
}

/// The first fields of an image: how many bits a pixel takes, how many colors
/// the color table holds, and the image's width and height in pixels.
#[derive(Clone, Copy, Debug, PartialEq, Eq, Structural)]
pub struct ImageHeader {
    pub bits_per_pixel: u8,
    pub number_of_colors: u8,
    pub width_in_px: u16,
    pub height_in_px: u16,
}

/// The fields that the first six bytes of `bytes` spell.
pub open spec fn image_header_of(bytes: Seq<u8>) -> ImageHeader {
    ImageHeader {
        bits_per_pixel: bytes[0],
        number_of_colors: bytes[1],
        width_in_px: le_u16(bytes[2], bytes[3]) as u16,
        height_in_px: le_u16(bytes[4], bytes[5]) as u16,
    }
}

/// Reads the six bytes that head an image.
///
/// Where fewer than six bytes are left the read fails, with the cursor before
/// the field that is cut short or missing: with `EndOfStream` where no byte of
/// the field is there, with `Truncated` where a part of it is.
pub fn read_image_header(reader: &mut ByteCursor) -> (result: Result<ImageHeader, DecodeError>)
    requires
        old(reader).well_formed(),
    ensures
        match result {
            Ok(header) => {
                &&& old(reader)@.len() >= 6
                &&& header == image_header_of(old(reader)@)
                &&& final(reader).advanced_from(old(reader), 6)
            },
            Err(error) => {
                let left = old(reader)@.len();
                let read = if left < 2 {
                    left as int
                } else if left < 4 {
                    2
                } else {
                    4
                };
                &&& left < 6
                &&& error == final(reader).failure(
                    if left == 3 || left == 5 {
                        ErrorKind::Truncated
                    } else {
                        ErrorKind::EndOfStream
                    },
                )
                &&& final(reader).advanced_from(old(reader), read)
            },
        },
{
    let bits_per_pixel = match take_u8(reader) {
        Ok(value) => value,
        Err(error) => {
            return Err(error);
        },
    };
    let number_of_colors = match take_u8(reader) {
        Ok(value) => value,
        Err(error) => {
            return Err(error);
        },
    };
    let width_in_px = match take_u16(reader) {
        Ok(value) => value,
        Err(error) => {
            return Err(error);
        },
    };
    let height_in_px = match take_u16(reader) {
        Ok(value) => value,
        Err(error) => {
            return Err(error);
        },
    };
    Ok(ImageHeader { bits_per_pixel, number_of_colors, width_in_px, height_in_px })
}

impl ImageHeader {
    /// How many bytes a row of pixels takes: width times bits per pixel, in
    /// whole bytes.
    pub open spec fn row_bytes(self) -> int {
        (self.width_in_px as int * self.bits_per_pixel as int) / 8
    }

    /// How many bytes a row of pixels takes, or `None` where that number does
    /// not fit 16 bits.
    pub fn bytes_per_row(&self) -> (bytes: Option<u16>)
        ensures
            bytes == if self.row_bytes() <= u16::MAX {
                Some(self.row_bytes() as u16)
            } else {
                None
            },
    {
        assert(self.width_in_px as int * self.bits_per_pixel as int <= 65535 * 255)
            by (nonlinear_arith)
            requires
                self.width_in_px <= 65535,
                self.bits_per_pixel <= 255,
        ;
        let bits: u32 = self.width_in_px as u32 * self.bits_per_pixel as u32;
        let bytes: u32 = bits / 8;
        if bytes <= 65535 {
            Some(bytes as u16)
        } else {
            None
        }
    }
}

} // verus!
