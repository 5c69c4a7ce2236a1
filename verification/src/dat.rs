//! The typed tabular ("DAT") reader: a 32-bit row count, a fixed-width row
//! region whose width is found heuristically by scanning for a sentinel run
//! of `0xBB` bytes, and a heap region holding variable-length string and
//! list payloads referenced by offset.

use crate::error::ArchiveError;
use crate::schema::{Column, Table};
use crate::strutil::{
    chars_end_with, chars_to_string, ends_with, str_chars, str_eq, utf16_decode_lossy, utf16_lossy,
    utf16_units, utf16_units_of,
};
use crate::wire::{le32_at, le64_at, read_u32, read_u64};
use vstd::prelude::*;
use vstd::slice::slice_subrange;

verus! {

/// One decoded cell. `Float` holds the IEEE-754 bit pattern of the stored
/// 32-bit value; `List` holds an element count and the absolute heap
/// position of the first element; `Unknown` means the cell could not be
/// decoded (truncation or an unsupported column type), not absence.
#[derive(Debug)]
pub enum DatValue {
    Bool(bool),
    Int(i32),
    Long(u64),
    Float(u32),
    String(String),
    ForeignRow(u32),
    List(usize, u64),
    Unknown,
}

/// The mathematical value of a decoded cell.
pub enum DatValueV {
    Bool(bool),
    Int(i32),
    Long(u64),
    Float(u32),
    String(Seq<char>),
    ForeignRow(u32),
    List(nat, u64),
    Unknown,
}

impl View for DatValue {
    type V = DatValueV;

    open spec fn view(&self) -> DatValueV {
        match self {
            DatValue::Bool(b) => DatValueV::Bool(*b),
            DatValue::Int(v) => DatValueV::Int(*v),
            DatValue::Long(v) => DatValueV::Long(*v),
            DatValue::Float(v) => DatValueV::Float(*v),
            DatValue::String(s) => DatValueV::String(s@),
            DatValue::ForeignRow(v) => DatValueV::ForeignRow(*v),
            DatValue::List(c, o) => DatValueV::List(*c as nat, *o),
            DatValue::Unknown => DatValueV::Unknown,
        }
    }
}

/// The decoding class of a column, from its declared type name.
#[derive(Debug, Clone, Copy, PartialEq, Eq, Structural)]
pub enum ColKind {
    Bool,
    Byte,
    Short,
    Int,
    Float,
    Long,
    StringCol,
    ForeignRow,
    List,
    Other,
}

/// The decoding class denoted by a declared column type name; names not in
/// the fixed set fall to `Other`, whose cells decode to `Unknown`.
pub open spec fn kind_of(t: Seq<char>) -> ColKind {
    if t == "bool"@ {
        ColKind::Bool
    } else if t == "byte"@ || t == "u8"@ {
        ColKind::Byte
    } else if t == "short"@ || t == "u16"@ {
        ColKind::Short
    } else if t == "int"@ || t == "i32"@ || t == "u32"@ {
        ColKind::Int
    } else if t == "float"@ || t == "f32"@ {
        ColKind::Float
    } else if t == "long"@ || t == "u64"@ {
        ColKind::Long
    } else if t == "string"@ || t == "ref|string"@ {
        ColKind::StringCol
    } else if t == "foreign_row"@ {
        ColKind::ForeignRow
    } else if t == "ref|list"@ {
        ColKind::List
    } else {
        ColKind::Other
    }
}

/// The fixed width in bytes of one cell of class `k`. In the 64-bit layout,
/// string offsets are 8 bytes, foreign rows 16 (8 used, 8 skipped), lists 16
/// (count and offset); in the 32-bit layout they are 4, 4 and 8.
pub open spec fn kind_size(k: ColKind, is64: bool) -> int {
    match k {
        ColKind::Bool => 1,
        ColKind::Byte => 1,
        ColKind::Short => 2,
        ColKind::Int => 4,
        ColKind::Float => 4,
        ColKind::Long => 8,
        ColKind::StringCol => if is64 {
            8
        } else {
            4
        },
        ColKind::ForeignRow => if is64 {
            16
        } else {
            4
        },
        ColKind::List => if is64 {
            16
        } else {
            8
        },
        ColKind::Other => 4,
    }
}

/// The decoding class of a column.
pub fn column_kind(col: &Column) -> (r: ColKind)
    ensures
        r == kind_of(col.column_type@),
{
    let t = col.column_type.as_str();
    if str_eq(t, "bool") {
        ColKind::Bool
    } else if str_eq(t, "byte") || str_eq(t, "u8") {
        ColKind::Byte
    } else if str_eq(t, "short") || str_eq(t, "u16") {
        ColKind::Short
    } else if str_eq(t, "int") || str_eq(t, "i32") || str_eq(t, "u32") {
        ColKind::Int
    } else if str_eq(t, "float") || str_eq(t, "f32") {
        ColKind::Float
    } else if str_eq(t, "long") || str_eq(t, "u64") {
        ColKind::Long
    } else if str_eq(t, "string") || str_eq(t, "ref|string") {
        ColKind::StringCol
    } else if str_eq(t, "foreign_row") {
        ColKind::ForeignRow
    } else if str_eq(t, "ref|list") {
        ColKind::List
    } else {
        ColKind::Other
    }
}

/// The fixed width in bytes that one cell of `col` occupies in a row.
pub fn get_column_size(col: &Column, is_64bit: bool) -> (r: usize)
    ensures
        r == kind_size(kind_of(col.column_type@), is_64bit),
{
    match column_kind(col) {
        ColKind::Bool => 1,
        ColKind::Byte => 1,
        ColKind::Short => 2,
        ColKind::Int => 4,
        ColKind::Float => 4,
        ColKind::Long => 8,
        ColKind::StringCol => if is_64bit {
            8
        } else {
            4
        },
        ColKind::ForeignRow => if is_64bit {
            16
        } else {
            4
        },
        ColKind::List => if is_64bit {
            16
        } else {
            8
        },
        ColKind::Other => 4,
    }
}

/// True when a sentinel run of `0xBB` bytes (4 in the 32-bit layout, 8 in
/// the 64-bit one) lies wholly at position `p`.
pub open spec fn sentinel_at(d: Seq<u8>, p: int, is64: bool) -> bool {
    let w: int = if is64 {
        8
    } else {
        4
    };
    &&& 0 <= p
    &&& p + w <= d.len()
    &&& forall|j: int| p <= j < p + w ==> d[j] == 0xBB
}

/// True when `p` is a row/heap boundary for `rc` rows: the sentinel sits at
/// `p` and the fixed region `[4, p)` divides evenly into `rc` rows.
pub open spec fn boundary_at(d: Seq<u8>, p: int, rc: u32, is64: bool) -> bool {
    &&& sentinel_at(d, p, is64)
    &&& rc > 0
    &&& (p - 4) % (rc as int) == 0
}

/// The first boundary position at or after `p`, if any: the scan covers
/// every position at which the sentinel run still fits in the buffer.
pub open spec fn find_boundary(d: Seq<u8>, p: int, rc: u32, is64: bool) -> Option<int>
    decreases d.len() + 1 - p,
{
    let w: int = if is64 {
        8
    } else {
        4
    };
    if p < 0 || p + w > d.len() {
        None
    } else if boundary_at(d, p, rc, is64) {
        Some(p)
    } else {
        find_boundary(d, p + 1, rc, is64)
    }
}

/// Checks for the sentinel run at `p`.
fn is_sentinel(data: &[u8], p: usize, is64: bool) -> (r: bool)
    requires
        p <= data@.len(),
    ensures
        r == sentinel_at(data@, p as int, is64),
{
    let len = data.len();
    let w: usize = if is64 {
        8
    } else {
        4
    };
    if len - p < w {
        return false;
    }
    let mut j: usize = 0;
    while j < w
        invariant
            len == data@.len(),
            w == (if is64 { 8int } else { 4int }),
            p + w <= len,
            j <= w,
            forall|i: int| p <= i < p + j ==> data@[i] == 0xBB,
        decreases w - j,
    {
        if data[p + j] != 0xBB {
            assert(data@[(p + j) as int] != 0xBB);
            return false;
        }
        j = j + 1;
    }
    true
}

/// True when a buffer decodes as a DAT file under the given file name: it
/// holds a row count, and a positive count has an aligned sentinel boundary.
/// Exactly on these inputs construction succeeds.
pub open spec fn dat_decodes(d: Seq<u8>, name: Seq<char>) -> bool {
    &&& d.len() >= 4
    &&& (le32_at(d, 0) == 0 || find_boundary(d, 4, le32_at(d, 0), name_is_64bit(name)) is Some)
}

/// The typed-row reader over one DAT buffer: the backing bytes, the layout
/// flag derived from the file extension, the stored row count, the
/// heuristically found row length, and the absolute heap position.
#[derive(Debug)]
pub struct DatReader {
    /// The backing buffer; treated as immutable once the reader is built.
    pub data: Vec<u8>,
    pub is_64bit: bool,
    pub row_count: u32,
    pub row_length: Option<usize>,
    pub data_section_offset: u64,
    pub filename: String,
}

/// True when the file name marks the 64-bit layout.
pub open spec fn name_is_64bit(name: Seq<char>) -> bool {
    ends_with(name, ".dat64"@) || ends_with(name, ".datc64"@)
}

impl DatReader {
    /// The backing buffer.
    pub fn get_data(&self) -> (r: &[u8])
        ensures
            r@ == self.data@,
    {
        self.data.as_slice()
    }

    /// Builds a reader over `data`: reads the row count at offset 0, then,
    /// when the count is positive, scans forward from offset 4 for the first
    /// sentinel position that divides the fixed region evenly into rows;
    /// that position is the heap start and fixes the row length. Fails with
    /// `OutOfBounds` when the buffer has no row count, and with
    /// `AlignedBoundaryNotFound` when the scan finds no boundary. With a row
    /// count of zero the row length is zero and the heap starts at 4 exactly
    /// when the layout's own sentinel run sits there, else at 0; nothing
    /// past offset 12 is read.
    pub fn new(data: Vec<u8>, filename: &str) -> (r: Result<Self, ArchiveError>)
        ensures
            match r {
                Ok(reader) => {
                    &&& data@.len() >= 4
                    &&& reader.data@ == data@
                    &&& reader.filename@ == filename@
                    &&& reader.is_64bit == name_is_64bit(filename@)
                    &&& reader.row_count == le32_at(data@, 0)
                    &&& if reader.row_count > 0 {
                        &&& find_boundary(data@, 4, reader.row_count, reader.is_64bit) matches Some(
                            p,
                        )
                        &&& reader.data_section_offset == find_boundary(
                            data@,
                            4,
                            reader.row_count,
                            reader.is_64bit,
                        ).unwrap()
                        &&& reader.row_length == Some(
                            ((find_boundary(data@, 4, reader.row_count, reader.is_64bit).unwrap()
                                - 4) / (reader.row_count as int)) as usize,
                        )
                    } else {
                        &&& reader.row_length == Some(0usize)
                        &&& reader.data_section_offset == (
                        if sentinel_at(data@, 4, reader.is_64bit) {
                            4int
                        } else {
                            0int
                        })
                    }
                },
                Err(ArchiveError::OutOfBounds) => data@.len() < 4,
                Err(ArchiveError::AlignedBoundaryNotFound) => {
                    &&& data@.len() >= 4
                    &&& le32_at(data@, 0) > 0
                    &&& find_boundary(
                        data@,
                        4,
                        le32_at(data@, 0),
                        name_is_64bit(filename@),
                    ) is None
                },
                Err(_) => false,
            },
    {
        let len = data.len();
        if len < 4 {
            return Err(ArchiveError::OutOfBounds);
        }
        let name = str_chars(filename);
        let suf64 = str_chars(".dat64");
        let sufc64 = str_chars(".datc64");
        let is_64bit = chars_end_with(&name, &suf64) || chars_end_with(&name, &sufc64);
        let row_count = read_u32(data.as_slice(), 0);
        if row_count > 0 {
            let w: usize = if is_64bit {
                8
            } else {
                4
            };
            if len < w {
                proof {
                    assert(find_boundary(data@, 4, row_count, is_64bit) is None);
                }
                return Err(ArchiveError::AlignedBoundaryNotFound);
            }
            let stop = len - w;
            let mut p: usize = 4;
            while p <= stop
                invariant
                    len == data@.len(),
                    len >= 4,
                    w == (if is_64bit { 8int } else { 4int }),
                    len >= w,
                    stop == len - w,
                    4 <= p <= len + 1,
                    row_count > 0,
                    row_count == le32_at(data@, 0),
                    name@ == filename@,
                    is_64bit == name_is_64bit(filename@),
                    find_boundary(data@, p as int, row_count, is_64bit) == find_boundary(
                        data@,
                        4,
                        row_count,
                        is_64bit,
                    ),
                decreases len + 1 - p,
            {
                if is_sentinel(data.as_slice(), p, is_64bit) && (p - 4) % (row_count as usize)
                    == 0 {
                    proof {
                        assert(boundary_at(data@, p as int, row_count, is_64bit));
                        assert(find_boundary(data@, p as int, row_count, is_64bit) == Some(
                            p as int,
                        ));
                    }
                    let row_length = (p - 4) / (row_count as usize);
                    let dso = p as u64;
                    return Ok(
                        DatReader {
                            data,
                            is_64bit,
                            row_count,
                            row_length: Some(row_length),
                            data_section_offset: dso,
                            filename: chars_to_string(&name),
                        },
                    );
                }
                p = p + 1;
            }
            proof {
                assert(find_boundary(data@, p as int, row_count, is_64bit) is None);
            }
            Err(ArchiveError::AlignedBoundaryNotFound)
        } else {
            let mut dso: u64 = 0;
            if is_sentinel(data.as_slice(), 4, is_64bit) {
                dso = 4;
            }
            Ok(
                DatReader {
                    data,
                    is_64bit,
                    row_count,
                    row_length: Some(0),
                    data_section_offset: dso,
                    filename: chars_to_string(&name),
                },
            )
        }
    }
}

/// With a row count of zero, construction looks at the first 12 bytes
/// alone: buffers that agree there yield the same row count and the same
/// sentinel verdict, and with them the same heap offset, whatever else they
/// hold and however long they are.
pub proof fn lemma_zero_rows_reads_only_header(d1: Seq<u8>, d2: Seq<u8>, is64: bool)
    requires
        d1.len() >= 12,
        d2.len() >= 12,
        d1.subrange(0, 12) == d2.subrange(0, 12),
    ensures
        le32_at(d1, 0) == le32_at(d2, 0),
        sentinel_at(d1, 4, is64) == sentinel_at(d2, 4, is64),
{
    assert forall|j: int| 0 <= j < 12 implies d1[j] == d2[j] by {
        assert(d1.subrange(0, 12)[j] == d1[j]);
        assert(d2.subrange(0, 12)[j] == d2[j]);
        assert(d1.subrange(0, 12) =~= d2.subrange(0, 12));
    }
    assert(d1.subrange(0, 4) =~= d2.subrange(0, 4));
    let w: int = if is64 {
        8
    } else {
        4
    };
    assert(4 + w <= d1.len() && 4 + w <= d2.len());
    if sentinel_at(d1, 4, is64) {
        assert forall|j: int| 4 <= j < 4 + w implies d2[j] == 0xBB by {
            assert(d1[j] == 0xBB);
        }
    }
    if sentinel_at(d2, 4, is64) {
        assert forall|j: int| 4 <= j < 4 + w implies d1[j] == 0xBB by {
            assert(d2[j] == 0xBB);
        }
    }
}

/// The end of the heap string that starts at `start`: the first position at
/// or after `e` holding a 4-byte all-zero run whose distance from `start` is
/// even; the end of the buffer when no such run follows.
pub open spec fn find_string_end(d: Seq<u8>, start: int, e: int) -> int
    decreases d.len() - e,
{
    if e < 0 || e >= d.len() {
        d.len() as int
    } else if d[e] != 0 {
        find_string_end(d, start, e + 1)
    } else if e + 4 <= d.len() && d[e + 1] == 0 && d[e + 2] == 0 && d[e + 3] == 0 && (e - start)
        % 2 == 0 {
        e
    } else {
        find_string_end(d, start, e + 1)
    }
}

/// The string end never precedes `e` and never passes the end of the buffer.
pub proof fn lemma_find_string_end_bounds(d: Seq<u8>, start: int, e: int)
    requires
        0 <= e <= d.len(),
    ensures
        e <= find_string_end(d, start, e) <= d.len(),
    decreases d.len() - e,
{
    if e < d.len() {
        lemma_find_string_end_bounds(d, start, e + 1);
    }
}

/// The characters of the heap string at `abs`: the bytes up to the aligned
/// zero run, read as little-endian UTF-16 with lossy decoding.
pub open spec fn heap_string(d: Seq<u8>, abs: int) -> Seq<char> {
    utf16_lossy(utf16_units_of(d.subrange(abs, find_string_end(d, abs, abs))))
}

/// The cell of class `k` stored at `pos`, decoded against the heap at
/// `heap`. Variable-length payloads are addressed by `heap` plus the stored
/// offset (wrapping); a string offset that lands past the buffer decodes to
/// the empty string; the foreign-row null sentinel becomes `u32::MAX`.
pub open spec fn col_value(d: Seq<u8>, pos: int, k: ColKind, heap: u64, is64: bool) -> DatValueV {
    match k {
        ColKind::Bool => DatValueV::Bool(d[pos] != 0),
        ColKind::Int => DatValueV::Int(le32_at(d, pos) as i32),
        ColKind::Float => DatValueV::Float(le32_at(d, pos)),
        ColKind::Long => DatValueV::Long(le64_at(d, pos)),
        ColKind::StringCol => {
            let off = if is64 {
                le64_at(d, pos)
            } else {
                le32_at(d, pos) as u64
            };
            let abs = heap.wrapping_add(off);
            if (abs as int) < d.len() {
                DatValueV::String(heap_string(d, abs as int))
            } else {
                DatValueV::String(Seq::empty())
            }
        },
        ColKind::ForeignRow => {
            let v = if is64 {
                le64_at(d, pos)
            } else {
                le32_at(d, pos) as u64
            };
            if v == 0xfefefefe || v == 0xfefefefefefefefe {
                DatValueV::ForeignRow(u32::MAX)
            } else {
                DatValueV::ForeignRow(v as u32)
            }
        },
        ColKind::List => {
            if is64 {
                DatValueV::List(
                    (le64_at(d, pos) as usize) as nat,
                    heap.wrapping_add(le64_at(d, pos + 8)),
                )
            } else {
                DatValueV::List(
                    le32_at(d, pos) as nat,
                    heap.wrapping_add(le32_at(d, pos + 4) as u64),
                )
            }
        },
        ColKind::Byte => DatValueV::Unknown,
        ColKind::Short => DatValueV::Unknown,
        ColKind::Other => DatValueV::Unknown,
    }
}

/// The cells of a row window `[pos, end)`, one per column in schema order:
/// a column whose fixed width does not fit in what remains of the window
/// yields `Unknown` and consumes nothing; every other column is decoded at
/// the running position, which advances by its width.
pub open spec fn row_values(
    d: Seq<u8>,
    cols: Seq<Column>,
    pos: int,
    end: int,
    heap: u64,
    is64: bool,
) -> Seq<DatValueV>
    decreases cols.len(),
{
    if cols.len() == 0 {
        Seq::empty()
    } else {
        let k = kind_of(cols[0].column_type@);
        let sz = kind_size(k, is64);
        if pos + sz > end {
            seq![DatValueV::Unknown] + row_values(d, cols.skip(1), pos, end, heap, is64)
        } else {
            seq![col_value(d, pos, k, heap, is64)] + row_values(
                d,
                cols.skip(1),
                pos + sz,
                end,
                heap,
                is64,
            )
        }
    }
}

/// A decoded row always has one cell per column.
pub proof fn lemma_row_values_len(
    d: Seq<u8>,
    cols: Seq<Column>,
    pos: int,
    end: int,
    heap: u64,
    is64: bool,
)
    ensures
        row_values(d, cols, pos, end, heap, is64).len() == cols.len(),
    decreases cols.len(),
{
    if cols.len() > 0 {
        let k = kind_of(cols[0].column_type@);
        let sz = kind_size(k, is64);
        if pos + sz > end {
            lemma_row_values_len(d, cols.skip(1), pos, end, heap, is64);
        } else {
            lemma_row_values_len(d, cols.skip(1), pos + sz, end, heap, is64);
        }
    }
}

/// The total fixed width of a row as the schema declares it.
pub open spec fn cols_size(cols: Seq<Column>, is64: bool) -> int
    decreases cols.len(),
{
    if cols.len() == 0 {
        0
    } else {
        kind_size(kind_of(cols[0].column_type@), is64) + cols_size(cols.skip(1), is64)
    }
}

/// Finds the end of the heap string that starts at `start`.
fn scan_string_end(data: &[u8], start: usize) -> (r: usize)
    requires
        start <= data@.len(),
    ensures
        r == find_string_end(data@, start as int, start as int),
        start <= r <= data@.len(),
{
    let len = data.len();
    let mut e: usize = start;
    while e < len
        invariant
            len == data@.len(),
            start <= e <= len,
            find_string_end(data@, start as int, e as int) == find_string_end(
                data@,
                start as int,
                start as int,
            ),
        decreases len - e,
    {
        if data[e] == 0 && len - e >= 4 && data[e + 1] == 0 && data[e + 2] == 0 && data[e + 3] == 0
            && (e - start) % 2 == 0 {
            return e;
        }
        e = e + 1;
    }
    len
}

/// Decodes the cell of class `k` at `pos`, against the heap at `heap`.
fn read_column_value(data: &[u8], pos: usize, k: ColKind, heap: u64, is64: bool) -> (r: DatValue)
    requires
        pos + kind_size(k, is64) <= data@.len(),
    ensures
        r@ == col_value(data@, pos as int, k, heap, is64),
{
    let len = data.len();
    match k {
        ColKind::Bool => DatValue::Bool(data[pos] != 0),
        ColKind::Int => DatValue::Int(read_u32(data, pos) as i32),
        ColKind::Float => DatValue::Float(read_u32(data, pos)),
        ColKind::Long => DatValue::Long(read_u64(data, pos)),
        ColKind::StringCol => {
            let off: u64 = if is64 {
                read_u64(data, pos)
            } else {
                read_u32(data, pos) as u64
            };
            let abs = heap.wrapping_add(off);
            if abs < (len as u64) {
                let abs = abs as usize;
                let e = scan_string_end(data, abs);
                let units = utf16_units(slice_subrange(data, abs, e));
                let chars = utf16_decode_lossy(units.as_slice());
                DatValue::String(chars_to_string(&chars))
            } else {
                DatValue::String(String::new())
            }
        },
        ColKind::ForeignRow => {
            let v: u64 = if is64 {
                read_u64(data, pos)
            } else {
                read_u32(data, pos) as u64
            };
            if v == 0xfefefefe || v == 0xfefefefefefefefe {
                DatValue::ForeignRow(u32::MAX)
            } else {
                DatValue::ForeignRow(#[verifier::truncate] (v as u32))
            }
        },
        ColKind::List => {
            if is64 {
                let count = read_u64(data, pos);
                let off = read_u64(data, pos + 8);
                DatValue::List(#[verifier::truncate] (count as usize), heap.wrapping_add(off))
            } else {
                let count = read_u32(data, pos);
                let off = read_u32(data, pos + 4);
                DatValue::List(count as usize, heap.wrapping_add(off as u64))
            }
        },
        ColKind::Byte => DatValue::Unknown,
        ColKind::Short => DatValue::Unknown,
        ColKind::Other => DatValue::Unknown,
    }
}

/// The element of a list at index `i`: decoded with the list column's class
/// at the absolute heap position `off + i * width`, or `Unknown` when it
/// does not fit in the buffer.
pub open spec fn list_elem(d: Seq<u8>, off: u64, i: int, k: ColKind, heap: u64, is64: bool) -> DatValueV {
    let sz = kind_size(k, is64);
    let pos = off + i * sz;
    if pos + sz <= d.len() {
        col_value(d, pos as int, k, heap, is64)
    } else {
        DatValueV::Unknown
    }
}

impl DatReader {
    /// Decodes the cells of row `index`, one per column of `table` in schema
    /// order. Fails with `OutOfBounds` exactly when the row's start position
    /// lies at or past the end of the buffer; otherwise the readable window
    /// is clamped to the buffer, and each column that does not fit decodes
    /// to `Unknown` while the rest of the row is still produced.
    pub fn read_row(&self, index: u32, table: &Table) -> (r: Result<Vec<DatValue>, ArchiveError>)
        ensures
            ({
                let row_len = match self.row_length {
                    Some(v) => v as int,
                    None => cols_size(table.columns@, self.is_64bit),
                };
                let start = 4 + index * row_len;
                let end = if start + row_len <= self.data@.len() {
                    start + row_len
                } else {
                    self.data@.len() as int
                };
                match r {
                    Ok(values) => {
                        &&& start < self.data@.len()
                        &&& values@.len() == table.columns@.len()
                        &&& values@.map_values(|v: DatValue| v@) == row_values(
                            self.data@,
                            table.columns@,
                            start,
                            end,
                            self.data_section_offset,
                            self.is_64bit,
                        )
                    },
                    Err(e) => start >= self.data@.len() && e == ArchiveError::OutOfBounds,
                }
            }),
    {
        let len = self.data.len();
        let row_len: u128 = match self.row_length {
            Some(v) => v as u128,
            None => {
                let n = table.columns.len();
                let mut total: u128 = 0;
                let mut i: usize = n;
                while i > 0
                    invariant
                        n == table.columns@.len(),
                        i <= n,
                        total == cols_size(table.columns@.skip(i as int), self.is_64bit),
                        total <= 16 * (n - i),
                    decreases i,
                {
                    i = i - 1;
                    let sz = get_column_size(&table.columns[i], self.is_64bit);
                    proof {
                        assert(table.columns@.skip(i as int).skip(1) =~= table.columns@.skip(
                            i as int + 1,
                        ));
                    }
                    total = total + (sz as u128);
                }
                proof {
                    assert(table.columns@.skip(0) =~= table.columns@);
                }
                total
            },
        };
        assert(row_len <= 0xFFFF_FFFF_FFFF_FFFFu128 * 16) by {
            assert(usize::MAX <= 0xFFFF_FFFF_FFFF_FFFFu64);
        }
        assert((index as u128) * row_len <= 0xFFFF_FFFFu128 * (0xFFFF_FFFF_FFFF_FFFFu128 * 16))
            by (nonlinear_arith)
            requires
                index as u128 <= 0xFFFF_FFFFu128,
                0 <= row_len <= 0xFFFF_FFFF_FFFF_FFFFu128 * 16,
        ;
        let start128: u128 = 4 + (index as u128) * row_len;
        if start128 >= (len as u128) {
            return Err(ArchiveError::OutOfBounds);
        }
        let start = start128 as usize;
        let end: usize = if row_len <= ((len - start) as u128) {
            start + (row_len as usize)
        } else {
            len
        };
        let ghost gend = end as int;
        let heap = self.data_section_offset;
        let is64 = self.is_64bit;
        let n = table.columns.len();
        let mut values: Vec<DatValue> = Vec::new();
        let mut pos: usize = start;
        let mut i: usize = 0;
        proof {
            assert(table.columns@.skip(0) =~= table.columns@);
            assert(values@.map_values(|v: DatValue| v@) + row_values(
                self.data@,
                table.columns@,
                start as int,
                gend,
                heap,
                is64,
            ) =~= row_values(self.data@, table.columns@, start as int, gend, heap, is64));
        }
        while i < n
            invariant
                n == table.columns@.len(),
                len == self.data@.len(),
                is64 == self.is_64bit,
                heap == self.data_section_offset,
                i <= n,
                pos <= end <= len,
                values@.len() == i,
                values@.map_values(|v: DatValue| v@) + row_values(
                    self.data@,
                    table.columns@.skip(i as int),
                    pos as int,
                    gend,
                    heap,
                    is64,
                ) == row_values(
                    self.data@,
                    table.columns@,
                    start as int,
                    gend,
                    heap,
                    is64,
                ),
                gend == end,
            decreases n - i,
        {
            let ghost pre_cols = table.columns@.skip(i as int);
            let ghost pre_vals = values@;
            let col = &table.columns[i];
            let k = column_kind(col);
            let sz = get_column_size(col, is64);
            if end - pos < sz {
                values.push(DatValue::Unknown);
            } else {
                let v = read_column_value(self.data.as_slice(), pos, k, heap, is64);
                values.push(v);
                pos = pos + sz;
            }
            i = i + 1;
            proof {
                assert(pre_cols[0] == table.columns@[i - 1]);
                assert(pre_cols.skip(1) =~= table.columns@.skip(i as int));
                assert(values@ =~= pre_vals.push(values@[i - 1]));
                assert(values@.map_values(|v: DatValue| v@) =~= pre_vals.map_values(
                    |v: DatValue| v@,
                ).push(values@[i - 1]@));
                assert(values@.map_values(|v: DatValue| v@) + row_values(
                    self.data@,
                    table.columns@.skip(i as int),
                    pos as int,
                    gend,
                    heap,
                    is64,
                ) =~= row_values(self.data@, table.columns@, start as int, gend, heap, is64));
            }
        }
        proof {
            assert(table.columns@.skip(n as int) =~= Seq::<Column>::empty());
            assert(values@.map_values(|v: DatValue| v@) + Seq::<DatValueV>::empty()
                =~= values@.map_values(|v: DatValue| v@));
            lemma_row_values_len(
                self.data@,
                table.columns@,
                start as int,
                gend,
                heap,
                is64,
            );
        }
        Ok(values)
    }

    /// Decodes the `count` elements of a list whose first element sits at
    /// the absolute heap position `offset`, using the list column's declared
    /// element class. A count of zero yields no elements and reads nothing;
    /// an element that does not fit in the buffer decodes to `Unknown`.
    pub fn read_list_values(&self, offset: u64, count: usize, col: &Column) -> (r: Vec<DatValue>)
        ensures
            r@.len() == count,
            forall|i: int|
                0 <= i < count ==> (#[trigger] r@[i])@ == list_elem(
                    self.data@,
                    offset,
                    i,
                    kind_of(col.column_type@),
                    self.data_section_offset,
                    self.is_64bit,
                ),
            count == 0 ==> r@ == Seq::<DatValue>::empty(),
    {
        let len = self.data.len();
        let k = column_kind(col);
        let sz = get_column_size(col, self.is_64bit);
        let heap = self.data_section_offset;
        let is64 = self.is_64bit;
        let mut out: Vec<DatValue> = Vec::new();
        let mut i: usize = 0;
        while i < count
            invariant
                len == self.data@.len(),
                k == kind_of(col.column_type@),
                sz == kind_size(k, is64),
                is64 == self.is_64bit,
                heap == self.data_section_offset,
                i <= count,
                out@.len() == i,
                forall|j: int|
                    0 <= j < i ==> (#[trigger] out@[j])@ == list_elem(
                        self.data@,
                        offset,
                        j,
                        k,
                        heap,
                        is64,
                    ),
            decreases count - i,
        {
            let ghost pre = out@;
            assert((i as u128) * (sz as u128) <= 0xFFFF_FFFF_FFFF_FFFFu128 * 16)
                by (nonlinear_arith)
                requires
                    i as u128 <= 0xFFFF_FFFF_FFFF_FFFFu128,
                    0 <= sz as u128 <= 16,
            ;
            let pos128: u128 = (offset as u128) + (i as u128) * (sz as u128);
            if pos128 + (sz as u128) <= (len as u128) {
                let pos = pos128 as usize;
                out.push(read_column_value(self.data.as_slice(), pos, k, heap, is64));
            } else {
                out.push(DatValue::Unknown);
            }
            i = i + 1;
            proof {
                assert forall|j: int| 0 <= j < i implies (#[trigger] out@[j])@ == list_elem(
                    self.data@,
                    offset,
                    j,
                    k,
                    heap,
                    is64,
                ) by {
                    if j < i - 1 {
                        assert(out@[j] == pre[j]);
                    }
                }
            }
        }
        out
    }
}

} // verus!
