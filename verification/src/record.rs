//! The records of the record-tree container: a tagged header, the root
//! record, directory records and file records, all read from an immutable
//! byte buffer at absolute offsets.

use crate::error::ArchiveError;
use crate::strutil::{chars_to_string, utf16_decode_lossy, utf16_lossy, utf32_char, utf32_char_of};
use crate::wire::{le16_at, le32_at, le64_at, read_u16, read_u32, read_u64};
use vstd::prelude::*;

verus! {

/// The tag of a record, decoded from its 32-bit magic value.
#[derive(Debug, Clone, Copy, PartialEq, Eq, Structural)]
pub enum RecordTag {
    GGPK,
    PDIR,
    FILE,
    FREE,
    Unknown(u32),
}

impl RecordTag {
    pub const TAG_GGPK: u32 = 0x4B504747;

    pub const TAG_PDIR: u32 = 0x52494450;

    pub const TAG_FILE: u32 = 0x454C4946;

    pub const TAG_FREE: u32 = 0x45455246;

    /// The tag denoted by a stored 32-bit magic value.
    pub open spec fn spec_from_u32(val: u32) -> RecordTag {
        if val == 0x4B504747 {
            RecordTag::GGPK
        } else if val == 0x52494450 {
            RecordTag::PDIR
        } else if val == 0x454C4946 {
            RecordTag::FILE
        } else if val == 0x45455246 {
            RecordTag::FREE
        } else {
            RecordTag::Unknown(val)
        }
    }

    pub fn from_u32(val: u32) -> (r: Self)
        ensures
            r == Self::spec_from_u32(val),
    {
        match val {
            0x4B504747 => RecordTag::GGPK,
            0x52494450 => RecordTag::PDIR,
            0x454C4946 => RecordTag::FILE,
            0x45455246 => RecordTag::FREE,
            v => RecordTag::Unknown(v),
        }
    }
}

/// The 8-byte header that starts every record: total record length
/// (including these 8 bytes), then the tag magic.
#[derive(Debug, Clone, Copy, PartialEq, Eq, Structural)]
pub struct RecordHeader {
    pub length: u32,
    pub tag: RecordTag,
}

impl RecordHeader {
    pub const SIZE: usize = 8;

    pub fn read(data: &[u8]) -> (r: Self)
        requires
            data@.len() >= 8,
        ensures
            r.length == le32_at(data@, 0),
            r.tag == RecordTag::spec_from_u32(le32_at(data@, 4)),
    {
        let length = read_u32(data, 0);
        let tag_raw = read_u32(data, 4);
        RecordHeader { length, tag: RecordTag::from_u32(tag_raw) }
    }
}

/// The root record: container version and the offsets of the root directory
/// and of the free-record list.
#[derive(Debug, Clone, Copy, PartialEq, Eq, Structural)]
pub struct GgpkRecord {
    pub length: u32,
    pub version: u32,
    pub root_offset: u64,
    pub free_offset: u64,
}

impl GgpkRecord {
    /// Reads the root record from `data`, which starts at the record's own
    /// offset: length and tag, then version, root offset, free offset.
    /// Fails exactly when fewer than 28 bytes are available.
    pub fn read(data: &[u8], offset: u64) -> (r: Result<Self, ArchiveError>)
        ensures
            match r {
                Ok(rec) => {
                    &&& data@.len() >= 28
                    &&& rec.length == le32_at(data@, 0)
                    &&& rec.version == le32_at(data@, 8)
                    &&& rec.root_offset == le64_at(data@, 12)
                    &&& rec.free_offset == le64_at(data@, 20)
                },
                Err(e) => data@.len() < 28 && e == ArchiveError::OutOfBounds,
            },
    {
        if data.len() < 28 {
            return Err(ArchiveError::OutOfBounds);
        }
        let version = read_u32(data, 8);
        let root_offset = read_u64(data, 12);
        let free_offset = read_u64(data, 20);
        let length = read_u32(data, 0);
        Ok(GgpkRecord { length, version, root_offset, free_offset })
    }
}

/// Number of real characters in a stored name: the stored length counts one
/// trailing null.
pub open spec fn name_count(stored: u32) -> nat {
    if stored == 0 {
        0
    } else {
        (stored - 1) as nat
    }
}

/// True when names are stored as UTF-32 code points: container version 4 and
/// up; earlier versions use UTF-16.
pub open spec fn is_utf32_version(version: u32) -> bool {
    version >= 4
}

/// First byte offset past a stored name of `count` characters that starts at
/// `pos`: four bytes per character plus a 4-byte terminator for UTF-32, two
/// plus a 2-byte terminator for UTF-16.
pub open spec fn name_end(pos: int, count: nat, utf32: bool) -> int {
    if utf32 {
        pos + 4 * count + 4
    } else {
        pos + 2 * count + 2
    }
}

/// The UTF-32-stored name of `count` characters at `pos`: each 4-byte unit
/// is its own character, with `?` substituted for invalid code points.
pub open spec fn utf32_name(d: Seq<u8>, pos: int, count: nat) -> Seq<char> {
    Seq::new(count, |i: int| utf32_char(le32_at(d, pos + 4 * i)))
}

/// The UTF-16 code units of a stored name of `count` units at `pos`.
pub open spec fn utf16_name_units(d: Seq<u8>, pos: int, count: nat) -> Seq<u16> {
    Seq::new(count, |i: int| le16_at(d, pos + 2 * i))
}

/// The name stored at `pos`, decoded according to the container version.
pub open spec fn name_chars(d: Seq<u8>, pos: int, count: nat, utf32: bool) -> Seq<char> {
    if utf32 {
        utf32_name(d, pos, count)
    } else {
        utf16_lossy(utf16_name_units(d, pos, count))
    }
}

/// Decoding a stored UTF-32 name recovers exactly the characters that were
/// encoded: if the 4-byte units at `pos` hold the code points of `name`,
/// the decoded name is `name`.
pub proof fn lemma_utf32_name_roundtrip(d: Seq<u8>, pos: int, name: Seq<char>)
    requires
        forall|i: int| 0 <= i < name.len() ==> le32_at(d, pos + 4 * i) == name[i] as u32,
    ensures
        utf32_name(d, pos, name.len()) == name,
{
    assert forall|i: int| 0 <= i < name.len() implies utf32_name(d, pos, name.len())[i]
        == name[i] by {
        vstd::utf8::char_is_scalar(name[i]);
        vstd::utf8::char_u32_cast(name[i], name[i] as u32);
    }
    assert(utf32_name(d, pos, name.len()) =~= name);
}

/// Reads the name stored at `pos` with stored length `stored` (which counts
/// one trailing null). Fails exactly when the name and its terminator do not
/// fit in the buffer.
pub fn read_name(data: &[u8], pos: usize, stored: u32, utf32: bool) -> (r: Result<
    (Vec<char>, usize),
    ArchiveError,
>)
    requires
        pos <= data@.len(),
    ensures
        match r {
            Ok((name, end)) => {
                &&& name_end(pos as int, name_count(stored), utf32) <= data@.len()
                &&& name@ == name_chars(data@, pos as int, name_count(stored), utf32)
                &&& end == name_end(pos as int, name_count(stored), utf32)
            },
            Err(e) => {
                &&& name_end(pos as int, name_count(stored), utf32) > data@.len()
                &&& e == ArchiveError::OutOfBounds
            },
        },
{
    let len = data.len();
    let count: u32 = if stored == 0 {
        0
    } else {
        stored - 1
    };
    let avail = (len - pos) as u64;
    if utf32 {
        if 4 * (count as u64) + 4 > avail {
            return Err(ArchiveError::OutOfBounds);
        }
        let count = count as usize;
        let mut name: Vec<char> = Vec::new();
        let mut i: usize = 0;
        while i < count
            invariant
                len == data@.len(),
                pos + 4 * count + 4 <= len,
                i <= count,
                name@.len() == i,
                forall|j: int| 0 <= j < i ==> name@[j] == utf32_char(le32_at(data@, pos + 4 * j)),
            decreases count - i,
        {
            let v = read_u32(data, pos + 4 * i);
            name.push(utf32_char_of(v));
            i = i + 1;
        }
        proof {
            assert(name@ =~= utf32_name(data@, pos as int, count as nat));
        }
        Ok((name, pos + 4 * count + 4))
    } else {
        if 2 * (count as u64) + 2 > avail {
            return Err(ArchiveError::OutOfBounds);
        }
        let count = count as usize;
        let mut units: Vec<u16> = Vec::new();
        let mut i: usize = 0;
        while i < count
            invariant
                len == data@.len(),
                pos + 2 * count + 2 <= len,
                i <= count,
                units@.len() == i,
                forall|j: int| 0 <= j < i ==> units@[j] == le16_at(data@, pos + 2 * j),
            decreases count - i,
        {
            units.push(read_u16(data, pos + 2 * i));
            i = i + 1;
        }
        proof {
            assert(units@ =~= utf16_name_units(data@, pos as int, count as nat));
        }
        let name = utf16_decode_lossy(units.as_slice());
        Ok((name, pos + 2 * count + 2))
    }
}

/// One entry of a directory record: a hash of the child's name and the
/// child's absolute record offset.
#[derive(Debug, Clone, Copy, PartialEq, Eq, Structural)]
pub struct DirectoryEntry {
    pub name_hash: u32,
    pub offset: u64,
}

/// A directory record: its stored name, an opaque 32-byte content hash, and
/// the ordered entries pointing at its children.
#[derive(Debug, Clone)]
pub struct DirectoryRecord {
    pub length: u32,
    pub offset: u64,
    pub name: String,
    pub hash: Vec<u8>,
    pub entries: Vec<DirectoryEntry>,
}

/// Character count of the name of the directory record stored in `d`.
pub open spec fn dir_name_count(d: Seq<u8>) -> nat {
    name_count(le32_at(d, 8))
}

/// Entry count of the directory record stored in `d`.
pub open spec fn dir_entry_count(d: Seq<u8>) -> nat {
    le32_at(d, 12) as nat
}

/// Byte offset just past the name of the directory record stored in `d`.
/// The fixed part is 8 bytes of header, two counts, and the 32-byte hash;
/// the name starts at 48.
pub open spec fn dir_name_end(d: Seq<u8>, version: u32) -> int {
    name_end(48, dir_name_count(d), is_utf32_version(version))
}

/// True when a whole directory record fits in `d`.
pub open spec fn dir_ok(d: Seq<u8>, version: u32) -> bool {
    &&& d.len() >= 48
    &&& dir_name_end(d, version) + 12 * dir_entry_count(d) <= d.len()
}

/// The decoded name of the directory record stored in `d`.
pub open spec fn dir_name(d: Seq<u8>, version: u32) -> Seq<char> {
    name_chars(d, 48, dir_name_count(d), is_utf32_version(version))
}

/// The entries of the directory record stored in `d`, in stored order.
pub open spec fn dir_entries(d: Seq<u8>, version: u32) -> Seq<DirectoryEntry> {
    let ne = dir_name_end(d, version);
    Seq::new(
        dir_entry_count(d),
        |i: int|
            DirectoryEntry {
                name_hash: le32_at(d, ne + 12 * i),
                offset: le64_at(d, ne + 12 * i + 4),
            },
    )
}

impl DirectoryRecord {
    /// Reads a directory record from `data`, which holds exactly the record
    /// starting at absolute offset `offset`: stored name length, entry
    /// count, 32-byte hash, name, then the entries. Fails exactly when the
    /// record does not fit.
    pub fn read(data: &[u8], offset: u64, version: u32) -> (r: Result<Self, ArchiveError>)
        ensures
            match r {
                Ok(rec) => {
                    &&& dir_ok(data@, version)
                    &&& rec.length == le32_at(data@, 0)
                    &&& rec.offset == offset
                    &&& rec.name@ == dir_name(data@, version)
                    &&& rec.hash@ == data@.subrange(16, 48)
                    &&& rec.entries@ == dir_entries(data@, version)
                },
                Err(e) => !dir_ok(data@, version) && e == ArchiveError::OutOfBounds,
            },
    {
        let len = data.len();
        if len < 48 {
            return Err(ArchiveError::OutOfBounds);
        }
        let name_len = read_u32(data, 8);
        let total_entries = read_u32(data, 12);
        let hash = vstd::slice::slice_to_vec(vstd::slice::slice_subrange(data, 16, 48));
        let utf32 = version >= 4;
        let (name, ne) = match read_name(data, 48, name_len, utf32) {
            Ok(p) => p,
            Err(e) => {
                return Err(e);
            },
        };
        if 12 * (total_entries as u64) > (len - ne) as u64 {
            return Err(ArchiveError::OutOfBounds);
        }
        let total = total_entries as usize;
        let mut entries: Vec<DirectoryEntry> = Vec::new();
        let mut i: usize = 0;
        while i < total
            invariant
                len == data@.len(),
                ne + 12 * total <= len,
                i <= total,
                entries@.len() == i,
                forall|j: int|
                    0 <= j < i ==> entries@[j] == (DirectoryEntry {
                        name_hash: le32_at(data@, ne + 12 * j),
                        offset: le64_at(data@, ne + 12 * j + 4),
                    }),
            decreases total - i,
        {
            let name_hash = read_u32(data, ne + 12 * i);
            let entry_offset = read_u64(data, ne + 12 * i + 4);
            entries.push(DirectoryEntry { name_hash, offset: entry_offset });
            i = i + 1;
        }
        let length = read_u32(data, 0);
        proof {
            assert(entries@ =~= dir_entries(data@, version));
        }
        Ok(
            DirectoryRecord {
                length,
                offset,
                name: chars_to_string(&name),
                hash,
                entries,
            },
        )
    }
}

/// A file record: its stored name and the position and length of its raw
/// data, which follows the record header in the same buffer.
#[derive(Debug, Clone)]
pub struct FileRecord {
    pub length: u32,
    pub offset: u64,
    pub name: String,
    pub hash: Vec<u8>,
    pub data_offset: u64,
    pub data_length: u64,
}

/// Character count of the name of the file record stored in `d`.
pub open spec fn file_name_count(d: Seq<u8>) -> nat {
    name_count(le32_at(d, 8))
}

/// Byte offset just past the name of the file record stored in `d`: the
/// fixed part is 8 bytes of header, the name length, and the 32-byte hash;
/// the name starts at 44.
pub open spec fn file_name_end(d: Seq<u8>, version: u32) -> int {
    name_end(44, file_name_count(d), is_utf32_version(version))
}

/// True when a whole file record fits in `d` and its stored length covers
/// the header, so that the data length is not negative.
pub open spec fn file_ok(d: Seq<u8>, version: u32) -> bool {
    &&& d.len() >= 44
    &&& file_name_end(d, version) <= d.len()
    &&& file_name_end(d, version) <= le32_at(d, 0)
}

/// The decoded name of the file record stored in `d`.
pub open spec fn file_name(d: Seq<u8>, version: u32) -> Seq<char> {
    name_chars(d, 44, file_name_count(d), is_utf32_version(version))
}

impl FileRecord {
    /// Reads a file record from `data`, which holds the record starting at
    /// absolute offset `offset`: stored name length, 32-byte hash, then the
    /// name; the record's remaining bytes are the file data. Fails exactly
    /// when the name does not fit or the stored record length is smaller
    /// than the decoded header.
    pub fn read(data: &[u8], offset: u64, version: u32) -> (r: Result<Self, ArchiveError>)
        requires
            offset + data@.len() <= u64::MAX,
        ensures
            match r {
                Ok(rec) => {
                    &&& file_ok(data@, version)
                    &&& rec.length == le32_at(data@, 0)
                    &&& rec.offset == offset
                    &&& rec.name@ == file_name(data@, version)
                    &&& rec.hash@ == data@.subrange(12, 44)
                    &&& rec.data_offset == offset + file_name_end(data@, version)
                    &&& rec.data_length == le32_at(data@, 0) - file_name_end(data@, version)
                },
                Err(e) => !file_ok(data@, version) && e == ArchiveError::OutOfBounds,
            },
    {
        let len = data.len();
        if len < 44 {
            return Err(ArchiveError::OutOfBounds);
        }
        let name_len = read_u32(data, 8);
        let hash = vstd::slice::slice_to_vec(vstd::slice::slice_subrange(data, 12, 44));
        let utf32 = version >= 4;
        let (name, header_end) = match read_name(data, 44, name_len, utf32) {
            Ok(p) => p,
            Err(e) => {
                return Err(e);
            },
        };
        let length = read_u32(data, 0);
        if (length as u64) < (header_end as u64) {
            return Err(ArchiveError::OutOfBounds);
        }
        let data_offset = offset + (header_end as u64);
        let data_length = (length as u64) - (header_end as u64);
        Ok(
            FileRecord {
                length,
                offset,
                name: chars_to_string(&name),
                hash,
                data_offset,
                data_length,
            },
        )
    }
}

/// The little-endian bytes of a root record with the given fields: length,
/// root magic, version, root offset, free offset.
pub open spec fn root_record_bytes(length: u32, version: u32, root: u64, free: u64) -> Seq<u8> {
    vstd::bytes::spec_u32_to_le_bytes(length) + vstd::bytes::spec_u32_to_le_bytes(0x4B504747u32)
        + vstd::bytes::spec_u32_to_le_bytes(version) + vstd::bytes::spec_u64_to_le_bytes(root)
        + vstd::bytes::spec_u64_to_le_bytes(free)
}

/// Reading a freshly encoded root record recovers exactly the version and
/// the two offsets that were encoded.
pub proof fn lemma_root_record_roundtrip(length: u32, version: u32, root: u64, free: u64)
    ensures
        ({
            let d = root_record_bytes(length, version, root, free);
            &&& d.len() == 28
            &&& le32_at(d, 0) == length
            &&& RecordTag::spec_from_u32(le32_at(d, 4)) == RecordTag::GGPK
            &&& le32_at(d, 8) == version
            &&& le64_at(d, 12) == root
            &&& le64_at(d, 20) == free
        }),
{
    vstd::bytes::lemma_auto_spec_u32_to_from_le_bytes();
    vstd::bytes::lemma_auto_spec_u64_to_from_le_bytes();
    let d = root_record_bytes(length, version, root, free);
    assert(d.subrange(0, 4) =~= vstd::bytes::spec_u32_to_le_bytes(length));
    assert(d.subrange(4, 8) =~= vstd::bytes::spec_u32_to_le_bytes(0x4B504747u32));
    assert(d.subrange(8, 12) =~= vstd::bytes::spec_u32_to_le_bytes(version));
    assert(d.subrange(12, 20) =~= vstd::bytes::spec_u64_to_le_bytes(root));
    assert(d.subrange(20, 28) =~= vstd::bytes::spec_u64_to_le_bytes(free));
}

} // verus!
