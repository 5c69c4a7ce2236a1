//! Little-endian integer reads from an immutable byte buffer. Every record
//! format in this crate is little-endian, addressed by absolute byte offset.

use vstd::bytes::*;
use vstd::prelude::*;
use vstd::slice::slice_subrange;

verus! {

/// The `u16` stored little-endian at byte offset `i` of `d`.
pub open spec fn le16_at(d: Seq<u8>, i: int) -> u16 {
    spec_u16_from_le_bytes(d.subrange(i, i + 2))
}

/// The `u32` stored little-endian at byte offset `i` of `d`.
pub open spec fn le32_at(d: Seq<u8>, i: int) -> u32 {
    spec_u32_from_le_bytes(d.subrange(i, i + 4))
}

/// The `u64` stored little-endian at byte offset `i` of `d`.
pub open spec fn le64_at(d: Seq<u8>, i: int) -> u64 {
    spec_u64_from_le_bytes(d.subrange(i, i + 8))
}

/// The `i32` stored little-endian at byte offset `i` of `d`, i.e. the stored
/// `u32` reinterpreted as a two's-complement signed value.
pub open spec fn le32_signed_at(d: Seq<u8>, i: int) -> i32 {
    le32_at(d, i) as i32
}

pub fn read_u16(data: &[u8], pos: usize) -> (r: u16)
    requires
        pos + 2 <= data@.len(),
    ensures
        r == le16_at(data@, pos as int),
{
    let n = data.len();
    assert(pos + 2 <= n);
    u16_from_le_bytes(slice_subrange(data, pos, pos + 2))
}

pub fn read_u32(data: &[u8], pos: usize) -> (r: u32)
    requires
        pos + 4 <= data@.len(),
    ensures
        r == le32_at(data@, pos as int),
{
    let n = data.len();
    assert(pos + 4 <= n);
    u32_from_le_bytes(slice_subrange(data, pos, pos + 4))
}

pub fn read_i32(data: &[u8], pos: usize) -> (r: i32)
    requires
        pos + 4 <= data@.len(),
    ensures
        r == le32_signed_at(data@, pos as int),
{
    read_u32(data, pos) as i32
}

pub fn read_u64(data: &[u8], pos: usize) -> (r: u64)
    requires
        pos + 8 <= data@.len(),
    ensures
        r == le64_at(data@, pos as int),
{
    let n = data.len();
    assert(pos + 8 <= n);
    u64_from_le_bytes(slice_subrange(data, pos, pos + 8))
}

} // verus!
