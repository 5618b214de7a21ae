use vstd::prelude::*;
use vstd::slice::slice_subrange;
use crate::cursor::{le_u32, take_bytes, take_u32, ByteCursor};
use crate::error::{DecodeError, ErrorKind};

verus! {

/// `String::push` of the standard library: the string afterwards is the
/// string before with `ch` appended as its last character.
pub assume_specification[ String::push ](s: &mut String, ch: char)
    ensures
        final(s)@ == old(s)@.push(ch),
;

/// Length of a name in a directory entry.
pub const LENGTH_NAME: usize = 12;

/// Length of the directory entry of a file: name, offset and size.
pub const LENGTH_FILE_ENTRY: usize = 20;

/// Length of the directory entry of a folder: name and offset.
pub const LENGTH_FOLDER_ENTRY: usize = 16;

/// The character that a byte of a name stands for; a zero byte is padding
/// and stands for none.
pub open spec fn name_char(byte: u8) -> Option<char> {
    if byte == 0 {
        None
    } else {
        Some(byte as char)
    }
}

/// The name that the bytes of a name field spell: their characters in order,
/// padding left out.
pub open spec fn name_of(bytes: Seq<u8>) -> Seq<char> {
    bytes.filter_map(|byte: u8| name_char(byte))
}

/// Decodes the bytes of a name field.
pub fn decode_name(bytes: &[u8]) -> (name: String)
    ensures
        name@ == name_of(bytes@),
{
    let mut name = String::new();
    let mut at: usize = 0;
    while at < bytes.len()
        invariant
            at <= bytes@.len(),
            name@ == name_of(bytes@.take(at as int)),
        decreases bytes@.len() - at,
    {
        let byte: u8 = bytes[at];
        proof {
            bytes@.lemma_filter_map_take_succ(|byte: u8| name_char(byte), at as int);
        }
        if byte != 0 {
            name.push(byte as char);
            assert(name@ =~= name_of(bytes@.take(at + 1)));
        }
        at = at + 1;
    }
    assert(bytes@.take(at as int) =~= bytes@);
    name
}

/// Decodes a name field of twelve bytes.
pub fn parse_string(value: [u8; 12]) -> (name: String)
    ensures
        name@ == name_of(value@),
{
    decode_name(value.as_slice())
}

/// Whether `data` begins with the four letters `LJAM` that mark an archive.
pub fn is_archive(data: &[u8]) -> (marked: bool)
    ensures
        marked == (data@.len() >= 4 && data@.take(4) == seq![0x4Cu8, 0x4Au8, 0x41u8, 0x4Du8]),
{
    if data.len() < 4 {
        return false;
    }
    let marked = data[0] == 0x4C && data[1] == 0x4A && data[2] == 0x41 && data[3] == 0x4D;
    proof {
        let head = data@.take(4);
        if marked {
            assert(head =~= seq![0x4Cu8, 0x4Au8, 0x41u8, 0x4Du8]);
        } else {
            assert(head[0] == data@[0] && head[1] == data@[1] && head[2] == data@[2] && head[3]
                == data@[3]);
        }
    }
    marked
}

/// What an archive's directory says of a file: its name, where its content
/// starts in the archive, and how long it is.
pub struct FileEntry {
    pub name: String,
    pub offset: u32,
    pub size: u32,
}

/// What an archive's directory says of a folder: its name, and where its own
/// directory starts in the archive.
pub struct FolderEntry {
    pub name: String,
    pub offset: u32,
}

/// The failure to read an entry with too few bytes left: the stream is at its
/// end, or it ends inside the entry.
pub open spec fn short_entry(reader: &ByteCursor) -> DecodeError {
    reader.failure(
        if reader@.len() == 0 {
            ErrorKind::EndOfStream
        } else {
            ErrorKind::Truncated
        },
    )
}

/// Reads the directory entry of a file: twelve bytes of name, then offset and
/// size as 32-bit numbers.
///
/// With fewer than twenty bytes left nothing is read, and the read fails: with
/// `EndOfStream` where no byte is left, else with `Truncated`.
pub fn read_file_entry(reader: &mut ByteCursor) -> (result: Result<FileEntry, DecodeError>)
    requires
        old(reader).well_formed(),
    ensures
        match result {
            Ok(entry) => {
                let bytes = old(reader)@;
                &&& bytes.len() >= LENGTH_FILE_ENTRY
                &&& entry.name@ == name_of(bytes.take(12))
                &&& entry.offset == le_u32(bytes[12], bytes[13], bytes[14], bytes[15])
                &&& entry.size == le_u32(bytes[16], bytes[17], bytes[18], bytes[19])
                &&& final(reader).advanced_from(old(reader), 20)
            },
            Err(error) => {
                &&& old(reader)@.len() < LENGTH_FILE_ENTRY
                &&& error == short_entry(old(reader))
                &&& final(reader).advanced_from(old(reader), 0)
            },
        },
{
    let left = reader.remaining();
    if left < LENGTH_FILE_ENTRY {
        let kind = if left == 0 {
            ErrorKind::EndOfStream
        } else {
            ErrorKind::Truncated
        };
        return Err(DecodeError { kind, offset: reader.position() });
    }
    let name = match take_bytes(reader, LENGTH_NAME) {
        Ok(bytes) => decode_name(bytes),
        Err(error) => {
            return Err(error);
        },
    };
    let offset = match take_u32(reader) {
        Ok(value) => value,
        Err(error) => {
            return Err(error);
        },
    };
    let size = match take_u32(reader) {
        Ok(value) => value,
        Err(error) => {
            return Err(error);
        },
    };
    Ok(FileEntry { name, offset, size })
}

/// Reads the directory entry of a folder: twelve bytes of name, then the
/// offset as a 32-bit number.
///
/// With fewer than sixteen bytes left nothing is read, and the read fails:
/// with `EndOfStream` where no byte is left, else with `Truncated`.
pub fn read_folder_entry(reader: &mut ByteCursor) -> (result: Result<FolderEntry, DecodeError>)
    requires
        old(reader).well_formed(),
    ensures
        match result {
            Ok(entry) => {
                let bytes = old(reader)@;
                &&& bytes.len() >= LENGTH_FOLDER_ENTRY
                &&& entry.name@ == name_of(bytes.take(12))
                &&& entry.offset == le_u32(bytes[12], bytes[13], bytes[14], bytes[15])
                &&& final(reader).advanced_from(old(reader), 16)
            },
            Err(error) => {
                &&& old(reader)@.len() < LENGTH_FOLDER_ENTRY
                &&& error == short_entry(old(reader))
                &&& final(reader).advanced_from(old(reader), 0)
            },
        },
{
    let left = reader.remaining();
    if left < LENGTH_FOLDER_ENTRY {
        let kind = if left == 0 {
            ErrorKind::EndOfStream
        } else {
            ErrorKind::Truncated
        };
        return Err(DecodeError { kind, offset: reader.position() });
    }
    let name = match take_bytes(reader, LENGTH_NAME) {
        Ok(bytes) => decode_name(bytes),
        Err(error) => {
            return Err(error);
        },
    };
    let offset = match take_u32(reader) {
        Ok(value) => value,
        Err(error) => {
            return Err(error);
        },
    };
    Ok(FolderEntry { name, offset })
}

/// The content of a file: the `size` bytes of `archive` from index `offset`
/// on.
///
/// A file without content is empty wherever its offset points. Where the
/// archive ends before the content does, the read fails with `Truncated` at
/// the archive's length.
pub fn file_data<'a>(archive: &'a [u8], offset: u32, size: u32) -> (result: Result<
    &'a [u8],
    DecodeError,
>)
    ensures
        match result {
            Ok(data) => {
                &&& size == 0 || offset + size <= archive@.len()
                &&& data@ == if size == 0 {
                    Seq::<u8>::empty()
                } else {
                    archive@.subrange(offset as int, offset + size)
                }
            },
            Err(error) => {
                &&& size > 0
                &&& offset + size > archive@.len()
                &&& error == (DecodeError { kind: ErrorKind::Truncated, offset: archive@.len() as usize })
            },
        },
{
    let len = archive.len();
    if size == 0 {
        return Ok(slice_subrange(archive, 0, 0));
    }
    if offset as u64 + size as u64 > len as u64 {
        return Err(DecodeError { kind: ErrorKind::Truncated, offset: len });
    }
    Ok(slice_subrange(archive, offset as usize, offset as usize + size as usize))
}

} // verus!
