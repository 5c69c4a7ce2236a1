//! The record-tree container reader: resolves the root record, directory and
//! file records by absolute byte offset into one immutable buffer, and walks
//! the directory tree by path segments.

use crate::error::ArchiveError;
use crate::record::{
    dir_entries, dir_name, dir_ok, file_name, file_name_end, file_ok, DirectoryRecord, FileRecord,
    GgpkRecord, RecordHeader, RecordTag,
};
use crate::strutil::{chars_eq, eq_ignore_ascii_case, str_chars};
use crate::wire::{le32_at, le64_at};
use vstd::prelude::*;
use vstd::slice::slice_subrange;

verus! {

/// The record header stored at offset `off` of `d`.
pub open spec fn header_at(d: Seq<u8>, off: int) -> RecordHeader {
    RecordHeader { length: le32_at(d, off), tag: RecordTag::spec_from_u32(le32_at(d, off + 4)) }
}

/// True when an 8-byte record header fits at offset `off`.
pub open spec fn header_ok(d: Seq<u8>, off: int) -> bool {
    0 <= off && off + 8 <= d.len()
}

/// The bytes of the record at offset `off`: as many bytes as its stored
/// length claims.
pub open spec fn rec_slice(d: Seq<u8>, off: int) -> Seq<u8> {
    d.subrange(off, off + le32_at(d, off))
}

/// True when a well-formed directory record sits at offset `off`.
pub open spec fn dir_at_ok(d: Seq<u8>, off: int, version: u32) -> bool {
    &&& header_ok(d, off)
    &&& header_at(d, off).tag == RecordTag::PDIR
    &&& off + le32_at(d, off) <= d.len()
    &&& dir_ok(rec_slice(d, off), version)
}

/// The name of the directory record at `off`.
pub open spec fn dir_name_at(d: Seq<u8>, off: int, version: u32) -> Seq<char> {
    dir_name(rec_slice(d, off), version)
}

/// The entries of the directory record at `off`.
pub open spec fn dir_entries_at(d: Seq<u8>, off: int, version: u32) -> Seq<
    crate::record::DirectoryEntry,
> {
    dir_entries(rec_slice(d, off), version)
}

/// True when a well-formed file record sits at offset `off`.
pub open spec fn file_at_ok(d: Seq<u8>, off: int, version: u32) -> bool {
    &&& header_ok(d, off)
    &&& header_at(d, off).tag == RecordTag::FILE
    &&& off + le32_at(d, off) <= d.len()
    &&& file_ok(rec_slice(d, off), version)
}

/// The name of the file record at `off`.
pub open spec fn file_name_at(d: Seq<u8>, off: int, version: u32) -> Seq<char> {
    file_name(rec_slice(d, off), version)
}

/// What scanning a directory's entries for one path segment finds: a fault
/// while reading a record, no match, or the offset of the matching directory
/// or file record.
pub enum SegFind {
    Fault,
    Missing,
    Dir(u64),
    File(u64),
}

/// The result of scanning `entries` in order for the first child whose name
/// matches `seg` case-insensitively. A directory or file record that cannot
/// be read is a fault, which ends the whole lookup; records with other tags
/// are skipped.
pub open spec fn find_segment(
    d: Seq<u8>,
    entries: Seq<crate::record::DirectoryEntry>,
    version: u32,
    seg: Seq<char>,
) -> SegFind
    decreases entries.len(),
{
    if entries.len() == 0 {
        SegFind::Missing
    } else {
        let e = entries[0];
        let off = e.offset as int;
        if !header_ok(d, off) {
            SegFind::Fault
        } else if header_at(d, off).tag == RecordTag::PDIR {
            if !dir_at_ok(d, off, version) {
                SegFind::Fault
            } else if eq_ignore_ascii_case(dir_name_at(d, off, version), seg) {
                SegFind::Dir(e.offset)
            } else {
                find_segment(d, entries.skip(1), version, seg)
            }
        } else if header_at(d, off).tag == RecordTag::FILE {
            if !file_at_ok(d, off, version) {
                SegFind::Fault
            } else if eq_ignore_ascii_case(file_name_at(d, off, version), seg) {
                SegFind::File(e.offset)
            } else {
                find_segment(d, entries.skip(1), version, seg)
            }
        } else {
            find_segment(d, entries.skip(1), version, seg)
        }
    }
}

/// The offset of the file record that the path `segs[i..]` resolves to from
/// the directory at `off`, or `None`: descent matches names
/// case-insensitively, an unmatched segment is "not found", a non-terminal
/// segment that resolves to a file is "not found", and so is a terminal
/// segment that resolves to a directory. An empty segment list resolves to
/// nothing.
pub open spec fn resolve_from(
    d: Seq<u8>,
    version: u32,
    off: int,
    segs: Seq<Seq<char>>,
    i: int,
) -> Option<u64>
    decreases segs.len() - i,
{
    if i < 0 || i >= segs.len() {
        None
    } else if !dir_at_ok(d, off, version) {
        None
    } else {
        match find_segment(d, dir_entries_at(d, off, version), version, segs[i]) {
            SegFind::Fault => None,
            SegFind::Missing => None,
            SegFind::Dir(o) => {
                if i == segs.len() - 1 {
                    None
                } else {
                    resolve_from(d, version, o as int, segs, i + 1)
                }
            },
            SegFind::File(o) => {
                if i == segs.len() - 1 {
                    Some(o)
                } else {
                    None
                }
            },
        }
    }
}

/// The reader of one record-tree container: the immutable backing buffer,
/// the root directory's offset and the container version, both taken from
/// the root record at offset 0.
pub struct GgpkReader {
    /// The backing buffer; treated as immutable once the reader is built.
    pub data: Vec<u8>,
    pub root_offset: u64,
    pub version: u32,
}

/// True when `d` opens as a record-tree container: the buffer holds a root
/// record with the root magic.
pub open spec fn open_ok(d: Seq<u8>) -> bool {
    &&& d.len() >= 28
    &&& header_at(d, 0).tag == RecordTag::GGPK
}

impl GgpkReader {
    pub open spec fn buf(&self) -> Seq<u8> {
        self.data@
    }

    /// True of every reader built by `open`.
    pub open spec fn wf(&self) -> bool {
        &&& open_ok(self.buf())
        &&& self.root_offset == le64_at(self.buf(), 12)
        &&& self.version == le32_at(self.buf(), 8)
    }

    /// Opens a container over `data`: fails with `CorruptContainer` exactly
    /// when the first 8 bytes do not carry the root magic, and with
    /// `OutOfBounds` when the root record is cut short. The root offset and
    /// version are the ones encoded in the root record.
    pub fn open(data: Vec<u8>) -> (r: Result<Self, ArchiveError>)
        ensures
            match r {
                Ok(reader) => {
                    &&& open_ok(data@)
                    &&& reader.buf() == data@
                    &&& reader.wf()
                },
                Err(ArchiveError::CorruptContainer) => data@.len() < 8 || header_at(data@, 0).tag
                    != RecordTag::GGPK,
                Err(ArchiveError::OutOfBounds) => data@.len() < 28 && data@.len() >= 8
                    && header_at(data@, 0).tag == RecordTag::GGPK,
                Err(_) => false,
            },
    {
        if data.len() < 8 {
            return Err(ArchiveError::CorruptContainer);
        }
        let header = RecordHeader::read(data.as_slice());
        if !matches!(header.tag, RecordTag::GGPK) {
            return Err(ArchiveError::CorruptContainer);
        }
        let rec = match GgpkRecord::read(data.as_slice(), 0) {
            Ok(rec) => rec,
            Err(e) => {
                return Err(e);
            },
        };
        Ok(GgpkReader { data, root_offset: rec.root_offset, version: rec.version })
    }

    /// The backing buffer.
    pub fn get_data(&self) -> (r: &Vec<u8>)
        ensures
            r@ == self.buf(),
    {
        &self.data
    }

    /// Reads the 8-byte record header at `offset`; fails exactly when it
    /// does not fit in the buffer.
    pub fn read_record_header(&self, offset: u64) -> (r: Result<RecordHeader, ArchiveError>)
        ensures
            match r {
                Ok(h) => header_ok(self.buf(), offset as int) && h == header_at(
                    self.buf(),
                    offset as int,
                ),
                Err(e) => !header_ok(self.buf(), offset as int) && e == ArchiveError::OutOfBounds,
            },
    {
        let len = self.data.len();
        if len < 8 || offset > ((len - 8) as u64) {
            return Err(ArchiveError::OutOfBounds);
        }
        let off = offset as usize;
        let slice = slice_subrange(self.data.as_slice(), off, off + 8);
        proof {
            assert(slice@.subrange(0, 4) =~= self.buf().subrange(
                offset as int,
                offset as int + 4,
            ));
            assert(slice@.subrange(4, 8) =~= self.buf().subrange(
                offset as int + 4,
                offset as int + 8,
            ));
        }
        Ok(RecordHeader::read(slice))
    }

    /// The record's own bytes: `length` bytes starting at `offset`; fails
    /// exactly when that range leaves the buffer.
    fn record_slice(&self, offset: u64, length: u64) -> (r: Result<&[u8], ArchiveError>)
        ensures
            match r {
                Ok(s) => offset + length <= self.buf().len() && s@ == self.buf().subrange(
                    offset as int,
                    offset as int + length as int,
                ),
                Err(e) => offset + length > self.buf().len() && e == ArchiveError::OutOfBounds,
            },
    {
        let len = self.data.len();
        match offset.checked_add(length) {
            Some(end) => {
                if end > (len as u64) {
                    Err(ArchiveError::OutOfBounds)
                } else {
                    Ok(slice_subrange(self.data.as_slice(), offset as usize, end as usize))
                }
            },
            None => Err(ArchiveError::OutOfBounds),
        }
    }

    /// A view of `length` bytes of raw data at `offset`, as a file record's
    /// `data_offset`/`data_length` describe it; fails exactly when the range
    /// leaves the buffer.
    pub fn get_data_slice(&self, offset: u64, length: u64) -> (r: Result<&[u8], ArchiveError>)
        ensures
            match r {
                Ok(s) => offset + length <= self.buf().len() && s@ == self.buf().subrange(
                    offset as int,
                    offset as int + length as int,
                ),
                Err(e) => offset + length > self.buf().len() && e == ArchiveError::OutOfBounds,
            },
    {
        self.record_slice(offset, length)
    }

    /// Reads the directory record at `offset`: `UnexpectedRecordType` when a
    /// readable header carries a tag other than the directory magic,
    /// `OutOfBounds` when the header or the record itself does not fit.
    pub fn read_directory(&self, offset: u64) -> (r: Result<DirectoryRecord, ArchiveError>)
        ensures
            match r {
                Ok(dir) => {
                    &&& dir_at_ok(self.buf(), offset as int, self.version)
                    &&& dir.offset == offset
                    &&& dir.name@ == dir_name_at(self.buf(), offset as int, self.version)
                    &&& dir.entries@ == dir_entries_at(self.buf(), offset as int, self.version)
                },
                Err(ArchiveError::UnexpectedRecordType) => header_ok(self.buf(), offset as int)
                    && header_at(self.buf(), offset as int).tag != RecordTag::PDIR,
                Err(ArchiveError::OutOfBounds) => !dir_at_ok(self.buf(), offset as int, self.version)
                    && (!header_ok(self.buf(), offset as int) || header_at(
                    self.buf(),
                    offset as int,
                ).tag == RecordTag::PDIR),
                Err(_) => false,
            },
    {
        let header = match self.read_record_header(offset) {
            Ok(h) => h,
            Err(e) => {
                return Err(e);
            },
        };
        if !matches!(header.tag, RecordTag::PDIR) {
            return Err(ArchiveError::UnexpectedRecordType);
        }
        let data = match self.record_slice(offset, header.length as u64) {
            Ok(s) => s,
            Err(e) => {
                return Err(e);
            },
        };
        DirectoryRecord::read(data, offset, self.version)
    }

    /// Reads the file record at `offset`: `UnexpectedRecordType` when a
    /// readable header carries a tag other than the file magic,
    /// `OutOfBounds` when the header or the record itself does not fit.
    pub fn read_file_record(&self, offset: u64) -> (r: Result<FileRecord, ArchiveError>)
        ensures
            match r {
                Ok(f) => {
                    &&& file_at_ok(self.buf(), offset as int, self.version)
                    &&& f.offset == offset
                    &&& f.name@ == file_name_at(self.buf(), offset as int, self.version)
                    &&& f.data_offset == offset + file_name_end(
                        rec_slice(self.buf(), offset as int),
                        self.version,
                    )
                    &&& f.data_length == le32_at(self.buf(), offset as int) - file_name_end(
                        rec_slice(self.buf(), offset as int),
                        self.version,
                    )
                },
                Err(ArchiveError::UnexpectedRecordType) => header_ok(self.buf(), offset as int)
                    && header_at(self.buf(), offset as int).tag != RecordTag::FILE,
                Err(ArchiveError::OutOfBounds) => !file_at_ok(
                    self.buf(),
                    offset as int,
                    self.version,
                ) && (!header_ok(self.buf(), offset as int) || header_at(
                    self.buf(),
                    offset as int,
                ).tag == RecordTag::FILE),
                Err(_) => false,
            },
    {
        let header = match self.read_record_header(offset) {
            Ok(h) => h,
            Err(e) => {
                return Err(e);
            },
        };
        if !matches!(header.tag, RecordTag::FILE) {
            return Err(ArchiveError::UnexpectedRecordType);
        }
        let data = match self.record_slice(offset, header.length as u64) {
            Ok(s) => s,
            Err(e) => {
                return Err(e);
            },
        };
        let n = self.data.len();
        assert(offset + data@.len() <= n <= u64::MAX);
        match FileRecord::read(data, offset, self.version) {
            Ok(f) => {
                proof {
                    assert(data@.subrange(0, 4) =~= self.buf().subrange(
                        offset as int,
                        offset as int + 4,
                    ));
                }
                Ok(f)
            },
            Err(e) => Err(e),
        }
    }
}

/// What listing a directory shows of one child: a directory or a file, with
/// its decoded name.
#[derive(Debug, Clone, Copy, PartialEq, Eq, Structural)]
pub enum ChildKind {
    Dir,
    File,
}

/// One entry of a directory listing.
#[derive(Debug, Clone)]
pub struct ChildEntry {
    pub kind: ChildKind,
    pub name: String,
}

/// The kind and name of a listed child.
pub open spec fn child_view(c: ChildEntry) -> (ChildKind, Seq<char>) {
    (c.kind, c.name@)
}

/// The listing of `entries`, in stored order: every readable directory or
/// file record contributes its kind and name, records of other tags and
/// unreadable directory/file records are skipped, and an entry whose header
/// cannot be read at all faults the whole listing.
pub open spec fn children_of(
    d: Seq<u8>,
    version: u32,
    entries: Seq<crate::record::DirectoryEntry>,
) -> Option<Seq<(ChildKind, Seq<char>)>>
    decreases entries.len(),
{
    if entries.len() == 0 {
        Some(Seq::empty())
    } else {
        let e = entries[0];
        let off = e.offset as int;
        if !header_ok(d, off) {
            None
        } else {
            match children_of(d, version, entries.skip(1)) {
                None => None,
                Some(rest) => {
                    if header_at(d, off).tag == RecordTag::FILE && file_at_ok(d, off, version) {
                        Some(seq![(ChildKind::File, file_name_at(d, off, version))] + rest)
                    } else if header_at(d, off).tag == RecordTag::PDIR && dir_at_ok(
                        d,
                        off,
                        version,
                    ) {
                        Some(seq![(ChildKind::Dir, dir_name_at(d, off, version))] + rest)
                    } else {
                        Some(rest)
                    }
                },
            }
        }
    }
}

/// The offset of the directory that `entries` leads to for segment `seg`:
/// the first readable directory record whose name matches `seg`
/// case-insensitively. An entry whose header or directory record cannot be
/// read faults the search; file records and other tags are skipped.
pub open spec fn find_dir_segment(
    d: Seq<u8>,
    entries: Seq<crate::record::DirectoryEntry>,
    version: u32,
    seg: Seq<char>,
) -> SegFind
    decreases entries.len(),
{
    if entries.len() == 0 {
        SegFind::Missing
    } else {
        let e = entries[0];
        let off = e.offset as int;
        if !header_ok(d, off) {
            SegFind::Fault
        } else if header_at(d, off).tag == RecordTag::PDIR {
            if !dir_at_ok(d, off, version) {
                SegFind::Fault
            } else if eq_ignore_ascii_case(dir_name_at(d, off, version), seg) {
                SegFind::Dir(e.offset)
            } else {
                find_dir_segment(d, entries.skip(1), version, seg)
            }
        } else {
            find_dir_segment(d, entries.skip(1), version, seg)
        }
    }
}

/// The offset of the directory reached from `off` by the segments
/// `segs[i..]`, matching directory names case-insensitively and skipping
/// empty segments; `None` when a segment is unmatched or a record on the way
/// cannot be read.
pub open spec fn descend_dirs(
    d: Seq<u8>,
    version: u32,
    off: int,
    segs: Seq<Seq<char>>,
    i: int,
) -> Option<int>
    decreases segs.len() - i,
{
    if i < 0 || i >= segs.len() {
        Some(off)
    } else if segs[i].len() == 0 {
        descend_dirs(d, version, off, segs, i + 1)
    } else if !dir_at_ok(d, off, version) {
        None
    } else {
        match find_dir_segment(d, dir_entries_at(d, off, version), version, segs[i]) {
            SegFind::Dir(o) => descend_dirs(d, version, o as int, segs, i + 1),
            _ => None,
        }
    }
}

/// The offset of the first entry that is a readable directory record with
/// the exact name `name`; entries that cannot be read are skipped.
pub open spec fn first_dir_named(
    d: Seq<u8>,
    version: u32,
    entries: Seq<crate::record::DirectoryEntry>,
    name: Seq<char>,
) -> Option<u64>
    decreases entries.len(),
{
    if entries.len() == 0 {
        None
    } else {
        let e = entries[0];
        let off = e.offset as int;
        if header_ok(d, off) && header_at(d, off).tag == RecordTag::PDIR && dir_at_ok(
            d,
            off,
            version,
        ) && dir_name_at(d, off, version) == name {
            Some(e.offset)
        } else {
            first_dir_named(d, version, entries.skip(1), name)
        }
    }
}

/// What the heuristic decides for the buffer: the root directory has a
/// readable child directory named `Data`, and the first such child in turn
/// has a readable child directory named `Balance`.
pub open spec fn is_poe2_of(d: Seq<u8>, version: u32, root: int) -> bool {
    &&& dir_at_ok(d, root, version)
    &&& match first_dir_named(d, version, dir_entries_at(d, root, version), "Data"@) {
        None => false,
        Some(o) => first_dir_named(
            d,
            version,
            dir_entries_at(d, o as int, version),
            "Balance"@,
        ) is Some,
    }
}

impl GgpkReader {
    /// Scans `entries` in order for the first child directory or file whose
    /// name matches `seg` case-insensitively.
    fn find_segment_in(&self, entries: &Vec<crate::record::DirectoryEntry>, seg: &Vec<char>) -> (r:
        SegFind)
        ensures
            r == find_segment(self.buf(), entries@, self.version, seg@),
    {
        let n = entries.len();
        let mut i: usize = 0;
        proof {
            assert(entries@.skip(0) =~= entries@);
        }
        while i < n
            invariant
                n == entries@.len(),
                i <= n,
                find_segment(self.buf(), entries@.skip(i as int), self.version, seg@)
                    == find_segment(self.buf(), entries@, self.version, seg@),
            decreases n - i,
        {
            let ghost pre = entries@.skip(i as int);
            let e = entries[i];
            let header = match self.read_record_header(e.offset) {
                Ok(h) => h,
                Err(_) => {
                    return SegFind::Fault;
                },
            };
            match header.tag {
                RecordTag::PDIR => {
                    match self.read_directory(e.offset) {
                        Ok(dir) => {
                            let name = str_chars(dir.name.as_str());
                            if crate::strutil::chars_eq_ignore_ascii_case(&name, seg) {
                                return SegFind::Dir(e.offset);
                            }
                        },
                        Err(_) => {
                            return SegFind::Fault;
                        },
                    }
                },
                RecordTag::FILE => {
                    match self.read_file_record(e.offset) {
                        Ok(f) => {
                            let name = str_chars(f.name.as_str());
                            if crate::strutil::chars_eq_ignore_ascii_case(&name, seg) {
                                return SegFind::File(e.offset);
                            }
                        },
                        Err(_) => {
                            return SegFind::Fault;
                        },
                    }
                },
                _ => {},
            }
            i = i + 1;
            proof {
                assert(pre.skip(1) =~= entries@.skip(i as int));
            }
        }
        SegFind::Missing
    }

    /// Descends the tree one path segment at a time, matching directory or
    /// file names case-insensitively among the current directory's entries;
    /// `None` when a segment is unmatched, a non-terminal segment resolves
    /// to a file, the terminal segment resolves to a directory, or a record
    /// on the way cannot be read.
    pub fn read_file_by_path(&self, segments: &Vec<String>) -> (r: Option<FileRecord>)
        ensures
            ({
                let segs = segments@.map_values(|s: String| s@);
                let res = resolve_from(self.buf(), self.version, self.root_offset as int, segs, 0);
                match r {
                    Some(f) => {
                        &&& res == Some(f.offset)
                        &&& file_at_ok(self.buf(), f.offset as int, self.version)
                        &&& f.name@ == file_name_at(self.buf(), f.offset as int, self.version)
                        &&& f.data_offset == f.offset + file_name_end(
                            rec_slice(self.buf(), f.offset as int),
                            self.version,
                        )
                        &&& f.data_length == le32_at(self.buf(), f.offset as int) - file_name_end(
                            rec_slice(self.buf(), f.offset as int),
                            self.version,
                        )
                    },
                    None => res is None,
                }
            }),
    {
        let ghost segs = segments@.map_values(|s: String| s@);
        let n = segments.len();
        if n == 0 {
            return None;
        }
        let mut current: u64 = self.root_offset;
        let mut i: usize = 0;
        while i < n
            invariant
                n == segments@.len(),
                i < n,
                segs == segments@.map_values(|s: String| s@),
                resolve_from(self.buf(), self.version, current as int, segs, i as int)
                    == resolve_from(self.buf(), self.version, self.root_offset as int, segs, 0),
            decreases n - i,
        {
            let dir = match self.read_directory(current) {
                Ok(d) => d,
                Err(_) => {
                    return None;
                },
            };
            let seg = str_chars(segments[i].as_str());
            assert(seg@ == segs[i as int]);
            match self.find_segment_in(&dir.entries, &seg) {
                SegFind::Fault => {
                    return None;
                },
                SegFind::Missing => {
                    return None;
                },
                SegFind::Dir(o) => {
                    if i == n - 1 {
                        return None;
                    }
                    current = o;
                },
                SegFind::File(o) => {
                    if i == n - 1 {
                        match self.read_file_record(o) {
                            Ok(f) => {
                                return Some(f);
                            },
                            Err(_) => {
                                proof {
                                    lemma_find_segment_found(
                                        self.buf(),
                                        dir.entries@,
                                        self.version,
                                        seg@,
                                    );
                                }
                                assert(false);
                                return None;
                            },
                        }
                    }
                    return None;
                },
            }
            i = i + 1;
        }
        proof {
            assert(false);
        }
        None
    }

    /// Lists the children of the directory reached by `segments` (empty
    /// segments are skipped): every readable child directory or file record,
    /// in stored order, with its kind and name. `None` when the descent
    /// fails or a child's header cannot be read.
    pub fn list_files_in_directory(&self, segments: &Vec<String>) -> (r: Option<Vec<ChildEntry>>)
        ensures
            ({
                let segs = segments@.map_values(|s: String| s@);
                let dest = descend_dirs(self.buf(), self.version, self.root_offset as int, segs, 0);
                match r {
                    Some(children) => {
                        &&& dest is Some
                        &&& dir_at_ok(self.buf(), dest.unwrap(), self.version)
                        &&& Some(children@.map_values(|c: ChildEntry| child_view(c))) == children_of(
                            self.buf(),
                            self.version,
                            dir_entries_at(self.buf(), dest.unwrap(), self.version),
                        )
                    },
                    None => dest is None || !dir_at_ok(self.buf(), dest.unwrap(), self.version)
                        || children_of(
                        self.buf(),
                        self.version,
                        dir_entries_at(self.buf(), dest.unwrap(), self.version),
                    ) is None,
                }
            }),
    {
        let ghost segs = segments@.map_values(|s: String| s@);
        let n = segments.len();
        let mut current: u64 = self.root_offset;
        let mut i: usize = 0;
        while i < n
            invariant
                n == segments@.len(),
                i <= n,
                segs == segments@.map_values(|s: String| s@),
                descend_dirs(self.buf(), self.version, current as int, segs, i as int)
                    == descend_dirs(self.buf(), self.version, self.root_offset as int, segs, 0),
            decreases n - i,
        {
            let seg = str_chars(segments[i].as_str());
            assert(seg@ == segs[i as int]);
            if seg.len() == 0 {
                i = i + 1;
                continue;
            }
            let dir = match self.read_directory(current) {
                Ok(d) => d,
                Err(_) => {
                    return None;
                },
            };
            match self.find_dir_segment_in(&dir.entries, &seg) {
                SegFind::Dir(o) => {
                    current = o;
                },
                _ => {
                    return None;
                },
            }
            i = i + 1;
        }
        let dir = match self.read_directory(current) {
            Ok(d) => d,
            Err(_) => {
                return None;
            },
        };
        let total = dir.entries.len();
        let mut out: Vec<ChildEntry> = Vec::new();
        let mut j: usize = 0;
        proof {
            assert(dir.entries@.skip(0) =~= dir.entries@);
        }
        while j < total
            invariant
                total == dir.entries@.len(),
                j <= total,
                segs == segments@.map_values(|s: String| s@),
                descend_dirs(self.buf(), self.version, self.root_offset as int, segs, 0) == Some(
                    current as int,
                ),
                dir_at_ok(self.buf(), current as int, self.version),
                dir.entries@ == dir_entries_at(self.buf(), current as int, self.version),
                children_of(self.buf(), self.version, dir.entries@) is Some ==> ({
                    let whole = children_of(self.buf(), self.version, dir.entries@);
                    let rest = children_of(self.buf(), self.version, dir.entries@.skip(j as int));
                    rest is Some && whole == Some(
                        out@.map_values(|c: ChildEntry| child_view(c)) + rest.unwrap(),
                    )
                }),
                children_of(self.buf(), self.version, dir.entries@.skip(j as int)) is Some
                    <==> children_of(self.buf(), self.version, dir.entries@) is Some,
            decreases total - j,
        {
            let ghost pre = dir.entries@.skip(j as int);
            let e = dir.entries[j];
            let header = match self.read_record_header(e.offset) {
                Ok(h) => h,
                Err(_) => {
                    proof {
                        assert(pre[0] == e);
                        assert(children_of(self.buf(), self.version, pre) is None);
                    }
                    return None;
                },
            };
            match header.tag {
                RecordTag::FILE => {
                    match self.read_file_record(e.offset) {
                        Ok(f) => {
                            out.push(ChildEntry { kind: ChildKind::File, name: f.name });
                        },
                        Err(_) => {},
                    }
                },
                RecordTag::PDIR => {
                    match self.read_directory(e.offset) {
                        Ok(d) => {
                            out.push(ChildEntry { kind: ChildKind::Dir, name: d.name });
                        },
                        Err(_) => {},
                    }
                },
                _ => {},
            }
            j = j + 1;
            proof {
                assert(pre.skip(1) =~= dir.entries@.skip(j as int));
                if children_of(self.buf(), self.version, dir.entries@) is Some {
                    let whole = children_of(self.buf(), self.version, dir.entries@);
                    let rest = children_of(self.buf(), self.version, dir.entries@.skip(j as int));
                    assert(rest is Some);
                    assert(whole == Some(
                        out@.map_values(|c: ChildEntry| child_view(c)) + rest.unwrap(),
                    ));
                }
            }
        }
        proof {
            assert(dir.entries@.skip(total as int) =~= Seq::<crate::record::DirectoryEntry>::empty());
            assert(children_of(self.buf(), self.version, dir.entries@.skip(total as int)) is Some);
            assert(out@.map_values(|c: ChildEntry| child_view(c)) + Seq::empty() =~= out@.map_values(
                |c: ChildEntry| child_view(c),
            ));
        }
        Some(out)
    }

    /// Scans `entries` for the first readable child directory whose name
    /// matches `seg` case-insensitively; file records and other tags are
    /// skipped, and an unreadable header or directory record is a fault.
    fn find_dir_segment_in(
        &self,
        entries: &Vec<crate::record::DirectoryEntry>,
        seg: &Vec<char>,
    ) -> (r: SegFind)
        ensures
            r == find_dir_segment(self.buf(), entries@, self.version, seg@),
    {
        let n = entries.len();
        let mut i: usize = 0;
        proof {
            assert(entries@.skip(0) =~= entries@);
        }
        while i < n
            invariant
                n == entries@.len(),
                i <= n,
                find_dir_segment(self.buf(), entries@.skip(i as int), self.version, seg@)
                    == find_dir_segment(self.buf(), entries@, self.version, seg@),
            decreases n - i,
        {
            let ghost pre = entries@.skip(i as int);
            let e = entries[i];
            let header = match self.read_record_header(e.offset) {
                Ok(h) => h,
                Err(_) => {
                    return SegFind::Fault;
                },
            };
            if matches!(header.tag, RecordTag::PDIR) {
                match self.read_directory(e.offset) {
                    Ok(dir) => {
                        let name = str_chars(dir.name.as_str());
                        if crate::strutil::chars_eq_ignore_ascii_case(&name, seg) {
                            return SegFind::Dir(e.offset);
                        }
                    },
                    Err(_) => {
                        return SegFind::Fault;
                    },
                }
            }
            i = i + 1;
            proof {
                assert(pre.skip(1) =~= entries@.skip(i as int));
            }
        }
        SegFind::Missing
    }

    /// Finds the first readable child directory of `entries` with the exact
    /// name `name`; unreadable entries are skipped.
    fn first_dir_named_in(
        &self,
        entries: &Vec<crate::record::DirectoryEntry>,
        name: &Vec<char>,
    ) -> (r: Option<u64>)
        ensures
            r == first_dir_named(self.buf(), self.version, entries@, name@),
    {
        let n = entries.len();
        let mut i: usize = 0;
        proof {
            assert(entries@.skip(0) =~= entries@);
        }
        while i < n
            invariant
                n == entries@.len(),
                i <= n,
                first_dir_named(self.buf(), self.version, entries@.skip(i as int), name@)
                    == first_dir_named(self.buf(), self.version, entries@, name@),
            decreases n - i,
        {
            let ghost pre = entries@.skip(i as int);
            let e = entries[i];
            match self.read_record_header(e.offset) {
                Ok(header) => {
                    if matches!(header.tag, RecordTag::PDIR) {
                        match self.read_directory(e.offset) {
                            Ok(dir) => {
                                let dname = str_chars(dir.name.as_str());
                                if chars_eq(&dname, name) {
                                    return Some(e.offset);
                                }
                            },
                            Err(_) => {},
                        }
                    }
                },
                Err(_) => {},
            }
            i = i + 1;
            proof {
                assert(pre.skip(1) =~= entries@.skip(i as int));
            }
        }
        None
    }

    /// A quick probe for the newer game's layout: true exactly when the root
    /// directory has a readable child directory named `Data` whose first such
    /// occurrence in turn contains a readable child directory named
    /// `Balance`.
    pub fn is_poe2_heuristic(&self) -> (r: bool)
        ensures
            r == is_poe2_of(self.buf(), self.version, self.root_offset as int),
    {
        let root = match self.read_directory(self.root_offset) {
            Ok(d) => d,
            Err(_) => {
                return false;
            },
        };
        let mut data_name: Vec<char> = Vec::new();
        data_name.push('D');
        data_name.push('a');
        data_name.push('t');
        data_name.push('a');
        proof {
            reveal_strlit("Data");
            assert(data_name@ =~= "Data"@);
        }
        let data_off = match self.first_dir_named_in(&root.entries, &data_name) {
            Some(o) => o,
            None => {
                return false;
            },
        };
        let data_dir = match self.read_directory(data_off) {
            Ok(d) => d,
            Err(_) => {
                proof {
                    lemma_first_dir_named_ok(
                        self.buf(),
                        self.version,
                        root.entries@,
                        "Data"@,
                    );
                }
                assert(false);
                return false;
            },
        };
        let mut balance_name: Vec<char> = Vec::new();
        balance_name.push('B');
        balance_name.push('a');
        balance_name.push('l');
        balance_name.push('a');
        balance_name.push('n');
        balance_name.push('c');
        balance_name.push('e');
        proof {
            reveal_strlit("Balance");
            assert(balance_name@ =~= "Balance"@);
        }
        match self.first_dir_named_in(&data_dir.entries, &balance_name) {
            Some(_) => true,
            None => false,
        }
    }
}


/// True when the segment scan passes over this entry: its header reads, a
/// directory or file record at it reads, and its name does not match `seg`.
pub open spec fn entry_passes(
    d: Seq<u8>,
    e: crate::record::DirectoryEntry,
    version: u32,
    seg: Seq<char>,
) -> bool {
    let off = e.offset as int;
    &&& header_ok(d, off)
    &&& (header_at(d, off).tag == RecordTag::PDIR ==> dir_at_ok(d, off, version)
        && !eq_ignore_ascii_case(dir_name_at(d, off, version), seg))
    &&& (header_at(d, off).tag == RecordTag::FILE ==> file_at_ok(d, off, version)
        && !eq_ignore_ascii_case(file_name_at(d, off, version), seg))
}

/// The segment scan finds exactly the first match: when every entry before
/// `k` passes, and entry `k` is a readable file record whose name matches
/// `seg` case-insensitively, the scan returns entry `k`.
pub proof fn lemma_find_segment_hits(
    d: Seq<u8>,
    entries: Seq<crate::record::DirectoryEntry>,
    version: u32,
    seg: Seq<char>,
    k: int,
)
    requires
        0 <= k < entries.len(),
        forall|j: int| 0 <= j < k ==> entry_passes(d, #[trigger] entries[j], version, seg),
        header_ok(d, entries[k].offset as int),
        header_at(d, entries[k].offset as int).tag == RecordTag::FILE,
        file_at_ok(d, entries[k].offset as int, version),
        eq_ignore_ascii_case(file_name_at(d, entries[k].offset as int, version), seg),
    ensures
        find_segment(d, entries, version, seg) == SegFind::File(entries[k].offset),
    decreases k,
{
    if k == 0 {
    } else {
        assert(entry_passes(d, entries[0], version, seg));
        let rest = entries.skip(1);
        assert(rest[k - 1] == entries[k]);
        assert forall|j: int| 0 <= j < k - 1 implies entry_passes(
            d,
            #[trigger] rest[j],
            version,
            seg,
        ) by {
            assert(rest[j] == entries[j + 1]);
        }
        lemma_find_segment_hits(d, rest, version, seg, k - 1);
    }
}

/// A single-segment path that names a readable file among the root
/// directory's entries resolves to exactly that file's offset: the root
/// directory reads, every entry before position `k` passes the scan, and
/// entry `k` is a readable file record whose name matches the segment
/// case-insensitively.
pub proof fn lemma_resolve_single_segment_file(
    d: Seq<u8>,
    version: u32,
    root: int,
    seg: Seq<char>,
    k: int,
)
    requires
        dir_at_ok(d, root, version),
        0 <= k < dir_entries_at(d, root, version).len(),
        forall|j: int|
            0 <= j < k ==> entry_passes(
                d,
                #[trigger] dir_entries_at(d, root, version)[j],
                version,
                seg,
            ),
        header_ok(d, dir_entries_at(d, root, version)[k].offset as int),
        header_at(d, dir_entries_at(d, root, version)[k].offset as int).tag == RecordTag::FILE,
        file_at_ok(d, dir_entries_at(d, root, version)[k].offset as int, version),
        eq_ignore_ascii_case(
            file_name_at(d, dir_entries_at(d, root, version)[k].offset as int, version),
            seg,
        ),
    ensures
        resolve_from(d, version, root, seq![seg], 0) == Some(
            dir_entries_at(d, root, version)[k].offset,
        ),
{
    lemma_find_segment_hits(d, dir_entries_at(d, root, version), version, seg, k);
    assert(seq![seg][0] == seg);
    assert(seq![seg].len() == 1);
}

/// A found directory or file in `find_segment` is a readable record of that
/// kind.
pub proof fn lemma_find_segment_found(
    d: Seq<u8>,
    entries: Seq<crate::record::DirectoryEntry>,
    version: u32,
    seg: Seq<char>,
)
    ensures
        match find_segment(d, entries, version, seg) {
            SegFind::File(o) => file_at_ok(d, o as int, version),
            SegFind::Dir(o) => dir_at_ok(d, o as int, version),
            _ => true,
        },
    decreases entries.len(),
{
    if entries.len() > 0 {
        lemma_find_segment_found(d, entries.skip(1), version, seg);
    }
}

/// A directory found by name is a readable directory record.
pub proof fn lemma_first_dir_named_ok(
    d: Seq<u8>,
    version: u32,
    entries: Seq<crate::record::DirectoryEntry>,
    name: Seq<char>,
)
    ensures
        match first_dir_named(d, version, entries, name) {
            Some(o) => dir_at_ok(d, o as int, version),
            None => true,
        },
    decreases entries.len(),
{
    if entries.len() > 0 {
        lemma_first_dir_named_ok(d, version, entries.skip(1), name);
    }
}


} // verus!
