//! The path index: a flat list of bundles, a map from 64-bit path hashes to
//! file locations, a transient list of directory descriptors, and the
//! prefix-sharing reconstruction of human-readable paths.

use crate::error::ArchiveError;
use crate::hashes::{fnv1a64, fnv1a64_spec, murmur64a, murmur_hash64a};
use crate::strutil::{utf8_lossy, utf8_lossy_of};
use crate::wire::{le32_at, le32_signed_at, le64_at, read_i32, read_u32, read_u64};
use std::collections::HashMap;
use vstd::prelude::*;
use vstd::slice::slice_subrange;

verus! {

/// One physical bundle blob: its name and the size of its decompressed
/// contents.
#[derive(Debug, Clone)]
pub struct BundleInfo {
    pub name: String,
    pub uncompressed_size: u32,
}

/// The mathematical value of a `BundleInfo`.
pub struct BundleInfoV {
    pub name: Seq<char>,
    pub uncompressed_size: u32,
}

impl View for BundleInfo {
    type V = BundleInfoV;

    open spec fn view(&self) -> BundleInfoV {
        BundleInfoV { name: self.name@, uncompressed_size: self.uncompressed_size }
    }
}

/// One indexed file: where it lives inside its bundle, keyed by the 64-bit
/// hash of its path; `path` is empty until reconstruction assigns it.
#[derive(Debug, Clone)]
pub struct FileInfo {
    pub path_hash: u64,
    pub bundle_index: u32,
    pub file_offset: u32,
    pub file_size: u32,
    pub path: String,
}

/// The mathematical value of a `FileInfo`.
pub struct FileInfoV {
    pub path_hash: u64,
    pub bundle_index: u32,
    pub file_offset: u32,
    pub file_size: u32,
    pub path: Seq<char>,
}

impl View for FileInfo {
    type V = FileInfoV;

    open spec fn view(&self) -> FileInfoV {
        FileInfoV {
            path_hash: self.path_hash,
            bundle_index: self.bundle_index,
            file_offset: self.file_offset,
            file_size: self.file_size,
            path: self.path@,
        }
    }
}

/// One directory descriptor: the slice of the decompressed directory bundle
/// that holds its path-reconstruction stream. Consumed only during
/// reconstruction.
#[derive(Debug, Clone, Copy, PartialEq, Eq, Structural)]
pub struct DirectoryInfo {
    pub path_hash: u64,
    pub offset: u32,
    pub size: u32,
    pub recursive_size: u32,
}

/// The parsed index: the bundles and the files keyed by path hash.
#[derive(Debug)]
pub struct Index {
    pub bundles: Vec<BundleInfo>,
    pub files: HashMap<u64, FileInfo>,
}

/// The mathematical value of the file map.
pub open spec fn files_view(m: Map<u64, FileInfo>) -> Map<u64, FileInfoV> {
    m.map_values(|f: FileInfo| f@)
}

/// The bundle list parsed from `d` at `pos`, `n` entries: each is a signed
/// name length, that many UTF-8 name bytes, and a 32-bit decompressed size.
/// `None` when a length is negative or the bytes run out.
pub open spec fn parse_bundles(d: Seq<u8>, pos: int, n: int) -> Option<(Seq<BundleInfoV>, int)>
    decreases n,
{
    if n <= 0 {
        Some((Seq::empty(), pos))
    } else if pos + 4 > d.len() {
        None
    } else {
        let name_len = le32_signed_at(d, pos);
        if name_len < 0 {
            None
        } else if pos + 8 + name_len > d.len() {
            None
        } else {
            let b = BundleInfoV {
                name: utf8_lossy_of(d.subrange(pos + 4, pos + 4 + name_len)),
                uncompressed_size: le32_at(d, pos + 4 + name_len),
            };
            match parse_bundles(d, pos + 8 + name_len, n - 1) {
                None => None,
                Some((rest, end)) => Some((seq![b] + rest, end)),
            }
        }
    }
}

/// The file map parsed from `d` at `pos`, `n` entries of 20 bytes each
/// (path hash, bundle index, offset, size), inserted in order into `m` with
/// an empty path; a repeated hash keeps the last entry.
pub open spec fn parse_files(d: Seq<u8>, pos: int, n: int, m: Map<u64, FileInfoV>) -> Option<
    (Map<u64, FileInfoV>, int),
>
    decreases n,
{
    if n <= 0 {
        Some((m, pos))
    } else if pos + 20 > d.len() {
        None
    } else {
        let h = le64_at(d, pos);
        let f = FileInfoV {
            path_hash: h,
            bundle_index: le32_at(d, pos + 8),
            file_offset: le32_at(d, pos + 12),
            file_size: le32_at(d, pos + 16),
            path: Seq::empty(),
        };
        parse_files(d, pos + 20, n - 1, m.insert(h, f))
    }
}

/// The directory descriptors parsed from `d` at `pos`, `n` entries of 20
/// bytes each.
pub open spec fn parse_dirs(d: Seq<u8>, pos: int, n: int) -> Option<(Seq<DirectoryInfo>, int)>
    decreases n,
{
    if n <= 0 {
        Some((Seq::empty(), pos))
    } else if pos + 20 > d.len() {
        None
    } else {
        let dir = DirectoryInfo {
            path_hash: le64_at(d, pos),
            offset: le32_at(d, pos + 8),
            size: le32_at(d, pos + 12),
            recursive_size: le32_at(d, pos + 16),
        };
        match parse_dirs(d, pos + 20, n - 1) {
            None => None,
            Some((rest, end)) => Some((seq![dir] + rest, end)),
        }
    }
}

/// The whole index payload: bundle list, file map, directory descriptors,
/// and the offset where the embedded directory bundle starts.
pub open spec fn parse_index(d: Seq<u8>) -> Option<
    (Seq<BundleInfoV>, Map<u64, FileInfoV>, Seq<DirectoryInfo>, int),
> {
    if d.len() < 4 {
        None
    } else {
        match parse_bundles(d, 4, le32_signed_at(d, 0) as int) {
            None => None,
            Some((bundles, p1)) => {
                if p1 + 4 > d.len() {
                    None
                } else {
                    match parse_files(
                        d,
                        p1 + 4,
                        le32_signed_at(d, p1) as int,
                        Map::empty(),
                    ) {
                        None => None,
                        Some((files, p2)) => {
                            if p2 + 4 > d.len() {
                                None
                            } else {
                                match parse_dirs(d, p2 + 4, le32_signed_at(d, p2) as int) {
                                    None => None,
                                    Some((dirs, p3)) => Some((bundles, files, dirs, p3)),
                                }
                            }
                        },
                    }
                }
            },
        }
    }
}

impl Index {
    /// Parses an index payload: the bundle list, the file map (paths left
    /// empty), the transient directory descriptors, and the offset of the
    /// remaining bytes, which form the embedded directory bundle. Fails with
    /// `OutOfBounds` exactly when a count or length overruns the buffer.
    pub fn read(data: &[u8]) -> (r: Result<(Index, Vec<DirectoryInfo>, usize), ArchiveError>)
        ensures
            match r {
                Ok((index, dirs, rem)) => parse_index(data@) == Some(
                    (
                        index.bundles@.map_values(|b: BundleInfo| b@),
                        files_view(index.files@),
                        dirs@,
                        rem as int,
                    ),
                ),
                Err(e) => parse_index(data@) is None && e == ArchiveError::OutOfBounds,
            },
    {
        let len = data.len();
        if len < 4 {
            return Err(ArchiveError::OutOfBounds);
        }
        let bundle_count = read_i32(data, 0);
        let mut bundles: Vec<BundleInfo> = Vec::new();
        let mut pos: usize = 4;
        let mut k: i32 = 0;
        if bundle_count > 0 {
            while k < bundle_count
                invariant
                    len == data@.len(),
                    len >= 4,
                    bundle_count == le32_signed_at(data@, 0),
                    0 <= k <= bundle_count,
                    4 <= pos <= len,
                    parse_bundles(data@, pos as int, bundle_count - k) matches Some(
                        (rest, end),
                    ) ==> parse_bundles(data@, 4, bundle_count as int) == Some(
                        (bundles@.map_values(|b: BundleInfo| b@) + rest, end),
                    ),
                    parse_bundles(data@, pos as int, bundle_count - k) is None ==> parse_bundles(
                        data@,
                        4,
                        bundle_count as int,
                    ) is None,
                decreases bundle_count - k,
            {
                if len - pos < 4 {
                    return Err(ArchiveError::OutOfBounds);
                }
                let name_len = read_i32(data, pos);
                if name_len < 0 {
                    return Err(ArchiveError::OutOfBounds);
                }
                let nl = name_len as usize;
                if (nl as u64) + 8 > ((len - pos) as u64) {
                    return Err(ArchiveError::OutOfBounds);
                }
                let name = utf8_lossy(slice_subrange(data, pos + 4, pos + 4 + nl));
                let uncompressed_size = read_u32(data, pos + 4 + nl);
                let ghost prev = bundles@;
                bundles.push(BundleInfo { name, uncompressed_size });
                proof {
                    assert(bundles@.map_values(|b: BundleInfo| b@) =~= prev.map_values(
                        |b: BundleInfo| b@,
                    ) + seq![
                        BundleInfoV {
                            name: utf8_lossy_of(
                                data@.subrange(pos + 4, pos + 4 + name_len as int),
                            ),
                            uncompressed_size: le32_at(data@, pos + 4 + name_len as int),
                        },
                    ]);
                }
                let ghost old_pos = pos as int;
                pos = pos + 8 + nl;
                k = k + 1;
                proof {
                    let f = |b: BundleInfo| b@;
                    let b0 = BundleInfoV {
                        name: utf8_lossy_of(data@.subrange(old_pos + 4, old_pos + 4 + name_len)),
                        uncompressed_size: le32_at(data@, old_pos + 4 + name_len),
                    };
                    let pb = parse_bundles(data@, pos as int, bundle_count - k);
                    if pb is Some {
                        let rest = pb.unwrap().0;
                        assert(parse_bundles(data@, old_pos, bundle_count - (k - 1)) == Some(
                            (seq![b0] + rest, pb.unwrap().1),
                        ));
                        assert((prev.map_values(f) + (seq![b0] + rest)) =~= (bundles@.map_values(f)
                            + rest));
                    } else {
                        assert(parse_bundles(data@, old_pos, bundle_count - (k - 1)) is None);
                    }
                }
            }
        }
        let ghost bundles_v = bundles@.map_values(|b: BundleInfo| b@);
        proof {
            assert(parse_bundles(data@, pos as int, 0) == Some(
                (Seq::<BundleInfoV>::empty(), pos as int),
            ));
            assert(bundles_v + Seq::<BundleInfoV>::empty() =~= bundles_v);
        }
        proof {
            assert(parse_bundles(data@, 4, bundle_count as int) == Some(
                (bundles_v, pos as int),
            ));
        }
        if len - pos < 4 {
            return Err(ArchiveError::OutOfBounds);
        }
        let file_count = read_i32(data, pos);
        let mut files: HashMap<u64, FileInfo> = HashMap::new();
        proof {
            assert(files_view(files@) =~= Map::<u64, FileInfoV>::empty());
        }
        let fstart = pos;
        pos = pos + 4;
        let mut k: i32 = 0;
        if file_count > 0 {
            while k < file_count
                invariant
                    len == data@.len(),
                    len >= 4,
                    0 <= k <= file_count,
                    4 <= pos <= len,
                    fstart + 4 <= len,
                    file_count == le32_signed_at(data@, fstart as int),
                    parse_bundles(data@, 4, le32_signed_at(data@, 0) as int) == Some(
                        (bundles@.map_values(|b: BundleInfo| b@), fstart as int),
                    ),
                    parse_files(data@, pos as int, file_count - k, files_view(files@))
                        == parse_files(
                        data@,
                        fstart + 4,
                        file_count as int,
                        Map::<u64, FileInfoV>::empty(),
                    ),
                decreases file_count - k,
            {
                if len - pos < 20 {
                    return Err(ArchiveError::OutOfBounds);
                }
                let path_hash = read_u64(data, pos);
                let bundle_index = read_u32(data, pos + 8);
                let file_offset = read_u32(data, pos + 12);
                let file_size = read_u32(data, pos + 16);
                let f = FileInfo {
                    path_hash,
                    bundle_index,
                    file_offset,
                    file_size,
                    path: String::new(),
                };
                let ghost prev = files@;
                files.insert(path_hash, f);
                proof {
                    assert(files_view(files@) =~= files_view(prev).insert(path_hash, f@));
                    assert(f@.path =~= Seq::<char>::empty());
                }
                pos = pos + 20;
                k = k + 1;
            }
        }
        if len - pos < 4 {
            return Err(ArchiveError::OutOfBounds);
        }
        let dir_count = read_i32(data, pos);
        let mut dirs: Vec<DirectoryInfo> = Vec::new();
        let dstart = pos;
        pos = pos + 4;
        let mut k: i32 = 0;
        if dir_count > 0 {
            while k < dir_count
                invariant
                    len == data@.len(),
                    len >= 4,
                    0 <= k <= dir_count,
                    4 <= pos <= len,
                    fstart + 4 <= len,
                    dstart + 4 <= len,
                    dir_count == le32_signed_at(data@, dstart as int),
                    parse_bundles(data@, 4, le32_signed_at(data@, 0) as int) == Some(
                        (bundles@.map_values(|b: BundleInfo| b@), fstart as int),
                    ),
                    parse_files(
                        data@,
                        fstart + 4,
                        le32_signed_at(data@, fstart as int) as int,
                        Map::<u64, FileInfoV>::empty(),
                    ) == Some((files_view(files@), dstart as int)),
                    parse_dirs(data@, pos as int, dir_count - k) matches Some((rest, end))
                        ==> parse_dirs(data@, dstart + 4, dir_count as int) == Some(
                        (dirs@ + rest, end),
                    ),
                    parse_dirs(data@, pos as int, dir_count - k) is None ==> parse_dirs(
                        data@,
                        dstart + 4,
                        dir_count as int,
                    ) is None,
                decreases dir_count - k,
            {
                if len - pos < 20 {
                    return Err(ArchiveError::OutOfBounds);
                }
                let path_hash = read_u64(data, pos);
                let offset = read_u32(data, pos + 8);
                let size = read_u32(data, pos + 12);
                let recursive_size = read_u32(data, pos + 16);
                let ghost prev = dirs@;
                let ghost old_pos = pos as int;
                dirs.push(DirectoryInfo { path_hash, offset, size, recursive_size });
                pos = pos + 20;
                k = k + 1;
                proof {
                    let d0 = DirectoryInfo {
                        path_hash: le64_at(data@, old_pos),
                        offset: le32_at(data@, old_pos + 8),
                        size: le32_at(data@, old_pos + 12),
                        recursive_size: le32_at(data@, old_pos + 16),
                    };
                    assert(dirs@ =~= prev + seq![d0]);
                    let pd = parse_dirs(data@, pos as int, dir_count - k);
                    if pd is Some {
                        let rest = pd.unwrap().0;
                        assert(parse_dirs(data@, old_pos, dir_count - (k - 1)) == Some(
                            (seq![d0] + rest, pd.unwrap().1),
                        ));
                        assert((prev + (seq![d0] + rest)) =~= (dirs@ + rest));
                    } else {
                        assert(parse_dirs(data@, old_pos, dir_count - (k - 1)) is None);
                    }
                }
            }
        }
        proof {
            assert(parse_dirs(data@, pos as int, 0) == Some(
                (Seq::<DirectoryInfo>::empty(), pos as int),
            ));
            assert(dirs@ + Seq::<DirectoryInfo>::empty() =~= dirs@);
        }
        Ok((Index { bundles, files }, dirs, pos))
    }
}

/// An ASCII byte with uppercase letters folded to lowercase; other bytes
/// unchanged.
pub open spec fn byte_lower(b: u8) -> u8 {
    if 65 <= b <= 90 {
        (b + 32) as u8
    } else {
        b
    }
}

/// `s` with ASCII uppercase letters folded to lowercase, byte by byte.
pub open spec fn lower_bytes(s: Seq<u8>) -> Seq<u8> {
    s.map_values(|b: u8| byte_lower(b))
}

/// The four hash candidates of a reconstructed path fragment, in the
/// priority order in which they are tried: seeded Murmur2A-64 of the bytes
/// as-is and of their ASCII-lowercased form, then FNV-1a-64 likewise.
pub open spec fn fragment_hashes(frag: Seq<u8>) -> Seq<u64> {
    seq![
        crate::hashes::murmur64a(frag),
        crate::hashes::murmur64a(lower_bytes(frag)),
        fnv1a64_spec(frag),
        fnv1a64_spec(lower_bytes(frag)),
    ]
}

/// The key that a fragment is assigned to: the first of its four hash
/// candidates that is present among `keys`, or none.
pub open spec fn assign_target(keys: Set<u64>, frag: Seq<u8>) -> Option<u64> {
    let hs = fragment_hashes(frag);
    if keys.contains(hs[0]) {
        Some(hs[0])
    } else if keys.contains(hs[1]) {
        Some(hs[1])
    } else if keys.contains(hs[2]) {
        Some(hs[2])
    } else if keys.contains(hs[3]) {
        Some(hs[3])
    } else {
        None
    }
}

/// The number of bytes from `p` up to (not including) the first NUL byte,
/// or up to the end of `chunk` if no NUL follows.
pub open spec fn str_len_from(chunk: Seq<u8>, p: int) -> nat
    decreases chunk.len() - p,
{
    if p < 0 || p >= chunk.len() {
        0
    } else if chunk[p] == 0 {
        0
    } else {
        1 + str_len_from(chunk, p + 1)
    }
}

/// The fragment denoted by one stream entry: the NUL-terminated byte string
/// `s` at `p` (empty when the terminator is missing), appended to
/// `stack[idx]` when `idx` is in range.
pub open spec fn entry_fragment(chunk: Seq<u8>, p: int, idx: int, stack: Seq<Seq<u8>>) -> Seq<
    u8,
> {
    let sl = str_len_from(chunk, p);
    let s = if p + sl < chunk.len() {
        chunk.subrange(p, p + sl)
    } else {
        Seq::empty()
    };
    if 0 <= idx < stack.len() {
        stack[idx] + s
    } else {
        s
    }
}

/// The byte string at `p` never extends past the end of `chunk`.
pub proof fn lemma_str_len_from_bound(chunk: Seq<u8>, p: int)
    requires
        0 <= p <= chunk.len(),
    ensures
        p + str_len_from(chunk, p) <= chunk.len(),
    decreases chunk.len() - p,
{
    if p < chunk.len() && chunk[p] != 0 {
        lemma_str_len_from_bound(chunk, p + 1);
    }
}

/// One file-path assignment: the fragment goes to the first matching hash
/// candidate, unless a later assignment (already in `rest`) claimed that
/// key.
pub open spec fn step_assign(rest: Map<u64, Seq<u8>>, keys: Set<u64>, frag: Seq<u8>) -> Map<
    u64,
    Seq<u8>,
> {
    match assign_target(keys, frag) {
        Some(h) => if rest.dom().contains(h) {
            rest
        } else {
            rest.insert(h, frag)
        },
        None => rest,
    }
}

/// The path assignments produced by replaying the reconstruction stream of
/// `chunk` from `ptr`, with the given prefix `stack` and `base` flag,
/// against the key set `keys`: a map from file-map key to the fragment bytes
/// assigned to it. A later assignment to the same key wins. Reading a
/// little-endian `u32` of `0` toggles `base` and clears the stack when
/// `base` becomes true; any other value `v` reads a NUL-terminated string,
/// builds the fragment `stack[v - 1] ++ s` (or `s` alone when `v - 1` is out
/// of range), and either pushes it on the stack (`base` true) or assigns it
/// to the first matching hash candidate (`base` false).
pub open spec fn chunk_assignments(
    chunk: Seq<u8>,
    ptr: int,
    stack: Seq<Seq<u8>>,
    base: bool,
    keys: Set<u64>,
) -> Map<u64, Seq<u8>>
    decreases chunk.len() + 2 - ptr,
        via chunk_assignments_decreases
{
    if ptr < 0 || ptr + 4 > chunk.len() {
        Map::empty()
    } else {
        let val = le32_at(chunk, ptr);
        if val == 0 {
            let base2 = !base;
            let stack2 = if base2 {
                Seq::empty()
            } else {
                stack
            };
            chunk_assignments(chunk, ptr + 4, stack2, base2, keys)
        } else {
            let p = ptr + 4;
            let sl = str_len_from(chunk, p);
            let frag = entry_fragment(chunk, p, val - 1, stack);
            let ptr2 = p + sl + 1;
            if base {
                chunk_assignments(chunk, ptr2, stack.push(frag), base, keys)
            } else {
                step_assign(chunk_assignments(chunk, ptr2, stack, base, keys), keys, frag)
            }
        }
    }
}

#[via_fn]
proof fn chunk_assignments_decreases(
    chunk: Seq<u8>,
    ptr: int,
    stack: Seq<Seq<u8>>,
    base: bool,
    keys: Set<u64>,
) {
    if 0 <= ptr && ptr + 4 <= chunk.len() {
        lemma_str_len_from_bound(chunk, ptr + 4);
    }
}

/// The assignments contributed by one directory descriptor: its slice of the
/// decompressed payload is replayed from an empty stack; a descriptor whose
/// slice leaves the payload contributes nothing.
pub open spec fn dir_assignments(dd: Seq<u8>, dir: DirectoryInfo, keys: Set<u64>) -> Map<
    u64,
    Seq<u8>,
> {
    if dir.offset >= dd.len() || dir.offset + dir.size > dd.len() {
        Map::empty()
    } else {
        chunk_assignments(
            dd.subrange(dir.offset as int, dir.offset + dir.size),
            0,
            Seq::empty(),
            false,
            keys,
        )
    }
}

/// The assignments of all directory descriptors, in order; a later
/// directory's assignment to the same key wins.
pub open spec fn all_assignments(dirs: Seq<DirectoryInfo>, dd: Seq<u8>, keys: Set<u64>) -> Map<
    u64,
    Seq<u8>,
>
    decreases dirs.len(),
{
    if dirs.len() == 0 {
        Map::empty()
    } else {
        dir_assignments(dd, dirs[0], keys).union_prefer_right(
            all_assignments(dirs.skip(1), dd, keys),
        )
    }
}

/// `f` with its path replaced by `p`.
pub open spec fn set_path(f: FileInfoV, p: Seq<char>) -> FileInfoV {
    FileInfoV {
        path_hash: f.path_hash,
        bundle_index: f.bundle_index,
        file_offset: f.file_offset,
        file_size: f.file_size,
        path: p,
    }
}

/// The file map `m` with the paths of the assigned entries replaced by the
/// lossy UTF-8 decoding of their assigned fragments; everything else is
/// unchanged, and no entry is added or removed.
pub open spec fn apply_paths(m: Map<u64, FileInfoV>, a: Map<u64, Seq<u8>>) -> Map<u64, FileInfoV> {
    Map::new(
        |k: u64| m.dom().contains(k),
        |k: u64|
            if a.dom().contains(k) {
                set_path(m[k], utf8_lossy_of(a[k]))
            } else {
                m[k]
            },
    )
}

/// Applying two assignment maps one after the other is applying their
/// right-preferring union at once.
pub proof fn lemma_apply_paths_compose(
    m: Map<u64, FileInfoV>,
    a: Map<u64, Seq<u8>>,
    b: Map<u64, Seq<u8>>,
)
    ensures
        apply_paths(apply_paths(m, a), b) == apply_paths(m, a.union_prefer_right(b)),
{
    assert(apply_paths(apply_paths(m, a), b) =~= apply_paths(m, a.union_prefer_right(b)));
}

/// Applying an empty assignment map changes nothing.
pub proof fn lemma_apply_paths_empty(m: Map<u64, FileInfoV>)
    ensures
        apply_paths(m, Map::empty()) == m,
{
    assert(apply_paths(m, Map::empty()) =~= m);
}

/// ASCII-lowercases every byte.
fn bytes_lower(v: &[u8]) -> (r: Vec<u8>)
    ensures
        r@ == lower_bytes(v@),
{
    let n = v.len();
    let mut r: Vec<u8> = Vec::new();
    let mut i: usize = 0;
    while i < n
        invariant
            n == v@.len(),
            i <= n,
            r@.len() == i,
            forall|j: int| 0 <= j < i ==> r@[j] == byte_lower(v@[j]),
        decreases n - i,
    {
        let b = v[i];
        if 65 <= b && b <= 90 {
            r.push(b + 32);
        } else {
            r.push(b);
        }
        i = i + 1;
    }
    proof {
        assert(r@ =~= lower_bytes(v@));
    }
    r
}

/// Length of the byte string at `q`: the distance to the first NUL, or to
/// the end of `chunk` when none follows.
fn scan_nul(chunk: &[u8], q: usize) -> (r: usize)
    requires
        q <= chunk@.len(),
    ensures
        r == str_len_from(chunk@, q as int),
        q + r <= chunk@.len(),
{
    let len = chunk.len();
    let mut j: usize = q;
    while j < len && chunk[j] != 0
        invariant
            len == chunk@.len(),
            q <= j <= len,
            str_len_from(chunk@, q as int) == (j - q) + str_len_from(chunk@, j as int),
        decreases len - j,
    {
        j = j + 1;
    }
    j - q
}

/// `a` followed by `b`, as a fresh vector.
fn concat_bytes(a: &Vec<u8>, b: &[u8]) -> (r: Vec<u8>)
    ensures
        r@ == a@ + b@,
{
    let mut r: Vec<u8> = Vec::new();
    let na = a.len();
    let mut i: usize = 0;
    while i < na
        invariant
            na == a@.len(),
            i <= na,
            r@ =~= a@.subrange(0, i as int),
        decreases na - i,
    {
        r.push(a[i]);
        i = i + 1;
    }
    proof {
        assert(r@ =~= a@);
    }
    let nb = b.len();
    let mut j: usize = 0;
    while j < nb
        invariant
            nb == b@.len(),
            j <= nb,
            r@ =~= a@ + b@.subrange(0, j as int),
        decreases nb - j,
    {
        r.push(b[j]);
        j = j + 1;
    }
    proof {
        assert(r@ =~= a@ + b@);
    }
    r
}

/// The view of a stack of fragment byte vectors.
pub open spec fn stack_view(s: Seq<Vec<u8>>) -> Seq<Seq<u8>> {
    s.map_values(|v: Vec<u8>| v@)
}

/// Overwrites the path of the entry at `h` with the lossy UTF-8 decoding of
/// `frag`.
fn assign_path(files: &mut HashMap<u64, FileInfo>, h: u64, frag: &Vec<u8>)
    requires
        old(files)@.dom().contains(h),
    ensures
        final(files)@.dom() == old(files)@.dom(),
        files_view(final(files)@) == files_view(old(files)@).insert(
            h,
            set_path(files_view(old(files)@)[h], utf8_lossy_of(frag@)),
        ),
{
    let path = utf8_lossy(frag.as_slice());
    match files.get(&h) {
        Some(fr) => {
            let nf = FileInfo {
                path_hash: fr.path_hash,
                bundle_index: fr.bundle_index,
                file_offset: fr.file_offset,
                file_size: fr.file_size,
                path,
            };
            files.insert(h, nf);
            proof {
                assert(final(files)@.dom() =~= old(files)@.dom());
                assert(files_view(files@) =~= files_view(old(files)@).insert(
                    h,
                    set_path(files_view(old(files)@)[h], utf8_lossy_of(frag@)),
                ));
            }
        },
        None => {
            proof {
                assert(false);
            }
        },
    }
}

/// Replays one directory's reconstruction stream against the file map.
fn reconstruct_chunk(files: &mut HashMap<u64, FileInfo>, chunk: &[u8])
    ensures
        final(files)@.dom() == old(files)@.dom(),
        files_view(final(files)@) == apply_paths(
            files_view(old(files)@),
            chunk_assignments(chunk@, 0, Seq::empty(), false, old(files)@.dom()),
        ),
{
    let ghost keys = old(files)@.dom();
    let ghost goal = apply_paths(
        files_view(old(files)@),
        chunk_assignments(chunk@, 0, Seq::empty(), false, keys),
    );
    let len = chunk.len();
    let mut ptr: usize = 0;
    let mut stack: Vec<Vec<u8>> = Vec::new();
    let mut base = false;
    proof {
        assert(stack_view(stack@) =~= Seq::<Seq<u8>>::empty());
    }
    while len >= 4 && ptr <= len - 4
        invariant
            len == chunk@.len(),
            ptr <= len,
            files@.dom() == keys,
            apply_paths(
                files_view(files@),
                chunk_assignments(chunk@, ptr as int, stack_view(stack@), base, keys),
            ) == goal,
        decreases len - ptr,
    {
        let val = read_u32(chunk, ptr);
        if val == 0 {
            base = !base;
            if base {
                stack = Vec::new();
                proof {
                    assert(stack_view(stack@) =~= Seq::<Seq<u8>>::empty());
                }
            }
            ptr = ptr + 4;
        } else {
            let ghost old_ptr = ptr as int;
            let ghost old_stack = stack_view(stack@);
            let p = ptr + 4;
            let sl = scan_nul(chunk, p);
            let s_found = p + sl < len;
            let frag: Vec<u8> = if (val as u64) - 1 < (stack.len() as u64) {
                let idx = (val - 1) as usize;
                if s_found {
                    concat_bytes(&stack[idx], slice_subrange(chunk, p, p + sl))
                } else {
                    concat_bytes(&stack[idx], slice_subrange(chunk, 0, 0))
                }
            } else {
                if s_found {
                    vstd::slice::slice_to_vec(slice_subrange(chunk, p, p + sl))
                } else {
                    Vec::new()
                }
            };
            proof {
                assert(frag@ =~= entry_fragment(chunk@, p as int, val - 1, old_stack));
            }
            if base {
                stack.push(frag);
                proof {
                    assert(stack_view(stack@) =~= old_stack.push(
                        entry_fragment(chunk@, p as int, val - 1, old_stack),
                    ));
                }
            } else {
                let h0 = murmur_hash64a(frag.as_slice());
                let lower = bytes_lower(frag.as_slice());
                let h1 = murmur_hash64a(lower.as_slice());
                let h2 = fnv1a64(frag.as_slice());
                let h3 = fnv1a64(lower.as_slice());
                let ghost pre_view = files_view(files@);
                let ghost frag_s = frag@;
                let ghost target = assign_target(keys, frag_s);
                if files.contains_key(&h0) {
                    assign_path(files, h0, &frag);
                } else if files.contains_key(&h1) {
                    assign_path(files, h1, &frag);
                } else if files.contains_key(&h2) {
                    assign_path(files, h2, &frag);
                } else if files.contains_key(&h3) {
                    assign_path(files, h3, &frag);
                }
                proof {
                    let ptr2 = old_ptr + 4 + str_len_from(chunk@, old_ptr + 4) + 1;
                    let rest = chunk_assignments(chunk@, ptr2, old_stack, false, keys);
                    let stepped = match target {
                        Some(h) => if rest.dom().contains(h) {
                            rest
                        } else {
                            rest.insert(h, frag_s)
                        },
                        None => rest,
                    };
                    assert(chunk_assignments(chunk@, old_ptr, old_stack, false, keys) == stepped);
                    match target {
                        Some(h) => {
                            assert(files_view(files@) == pre_view.insert(
                                h,
                                set_path(pre_view[h], utf8_lossy_of(frag_s)),
                            ));
                            assert(apply_paths(files_view(files@), rest) =~= apply_paths(
                                pre_view,
                                stepped,
                            ));
                        },
                        None => {
                            assert(files_view(files@) == pre_view);
                            assert(apply_paths(files_view(files@), rest) =~= apply_paths(
                                pre_view,
                                stepped,
                            ));
                        },
                    }
                }
            }
            let after = p + sl;
            if after < len {
                ptr = after + 1;
            } else {
                ptr = after;
                proof {
                    assert(chunk_assignments(
                        chunk@,
                        after as int,
                        stack_view(stack@),
                        base,
                        keys,
                    ) =~= chunk_assignments(
                        chunk@,
                        after + 1,
                        stack_view(stack@),
                        base,
                        keys,
                    ));
                }
            }
        }
    }
    proof {
        assert(chunk_assignments(chunk@, ptr as int, stack_view(stack@), base, keys) =~= Map::<
            u64,
            Seq<u8>,
        >::empty());
        lemma_apply_paths_empty(files_view(files@));
    }
}

impl Index {
    /// Replays the reconstruction stream of every directory descriptor, in
    /// order, assigning each complete fragment to the file entry stored
    /// under the first matching hash candidate. Entries whose hash never
    /// matches keep their previous path; no entry is added or removed.
    pub fn parse_paths(
        directories: &Vec<DirectoryInfo>,
        dir_data: &[u8],
        files: &mut HashMap<u64, FileInfo>,
    )
        ensures
            final(files)@.dom() == old(files)@.dom(),
            files_view(final(files)@) == apply_paths(
                files_view(old(files)@),
                all_assignments(directories@, dir_data@, old(files)@.dom()),
            ),
    {
        let ghost keys = old(files)@.dom();
        let ghost goal = apply_paths(
            files_view(old(files)@),
            all_assignments(directories@, dir_data@, keys),
        );
        let n = directories.len();
        let len = dir_data.len();
        let mut i: usize = 0;
        proof {
            assert(directories@.skip(0) =~= directories@);
        }
        while i < n
            invariant
                n == directories@.len(),
                len == dir_data@.len(),
                i <= n,
                files@.dom() == keys,
                apply_paths(
                    files_view(files@),
                    all_assignments(directories@.skip(i as int), dir_data@, keys),
                ) == goal,
            decreases n - i,
        {
            let ghost pre = directories@.skip(i as int);
            let d = directories[i];
            let ghost a_dir = dir_assignments(dir_data@, d, keys);
            let ghost a_rest = all_assignments(directories@.skip(i as int + 1), dir_data@, keys);
            proof {
                assert(pre[0] == d);
                assert(pre.skip(1) =~= directories@.skip(i as int + 1));
                assert(all_assignments(pre, dir_data@, keys) == a_dir.union_prefer_right(a_rest));
            }
            let start = d.offset as usize;
            let skip_dir = start >= len || (d.offset as u64) + (d.size as u64) > (len as u64);
            if !skip_dir {
                let end = start + (d.size as usize);
                let chunk = slice_subrange(dir_data, start, end);
                let ghost pre_view = files_view(files@);
                reconstruct_chunk(files, chunk);
                proof {
                    assert(chunk@ == dir_data@.subrange(d.offset as int, d.offset + d.size));
                    assert(files_view(files@) == apply_paths(pre_view, a_dir));
                    lemma_apply_paths_compose(pre_view, a_dir, a_rest);
                }
            } else {
                proof {
                    assert(a_dir =~= Map::<u64, Seq<u8>>::empty());
                    assert(a_dir.union_prefer_right(a_rest) =~= a_rest);
                }
            }
            i = i + 1;
        }
        proof {
            assert(directories@.skip(n as int) =~= Seq::<DirectoryInfo>::empty());
            assert(all_assignments(directories@.skip(n as int), dir_data@, keys) =~= Map::<
                u64,
                Seq<u8>,
            >::empty());
            lemma_apply_paths_empty(files_view(files@));
        }
    }
}

/// Every key assigned by a chunk replay is one of the map's own keys, and it
/// is one of the four hash candidates of the very fragment assigned to it.
pub proof fn lemma_chunk_assignments_sound(
    chunk: Seq<u8>,
    ptr: int,
    stack: Seq<Seq<u8>>,
    base: bool,
    keys: Set<u64>,
)
    ensures
        forall|k: u64|
            #[trigger] chunk_assignments(chunk, ptr, stack, base, keys).dom().contains(k) ==> {
                &&& keys.contains(k)
                &&& fragment_hashes(chunk_assignments(chunk, ptr, stack, base, keys)[k]).contains(
                    k,
                )
            },
    decreases chunk.len() + 2 - ptr,
{
    if ptr < 0 || ptr + 4 > chunk.len() {
    } else {
        let val = le32_at(chunk, ptr);
        if val == 0 {
            let base2 = !base;
            let stack2 = if base2 {
                Seq::empty()
            } else {
                stack
            };
            lemma_chunk_assignments_sound(chunk, ptr + 4, stack2, base2, keys);
            let a = chunk_assignments(chunk, ptr, stack, base, keys);
            let a2 = chunk_assignments(chunk, ptr + 4, stack2, base2, keys);
            assert forall|k: u64| #[trigger] a.dom().contains(k) implies {
                &&& keys.contains(k)
                &&& fragment_hashes(a[k]).contains(k)
            } by {
                assert(a2.dom().contains(k) && a2[k] == a[k]);
            }
        } else {
            let p = ptr + 4;
            let sl = str_len_from(chunk, p);
            let frag = entry_fragment(chunk, p, val - 1, stack);
            let ptr2 = p + sl + 1;
            lemma_str_len_from_bound(chunk, p);
            if base {
                lemma_chunk_assignments_sound(chunk, ptr2, stack.push(frag), base, keys);
                let a = chunk_assignments(chunk, ptr, stack, base, keys);
                let a2 = chunk_assignments(chunk, ptr2, stack.push(frag), base, keys);
                assert forall|k: u64| #[trigger] a.dom().contains(k) implies {
                    &&& keys.contains(k)
                    &&& fragment_hashes(a[k]).contains(k)
                } by {
                    assert(a2.dom().contains(k) && a2[k] == a[k]);
                }
            } else {
                lemma_chunk_assignments_sound(chunk, ptr2, stack, base, keys);
                let rest = chunk_assignments(chunk, ptr2, stack, base, keys);
                let a = chunk_assignments(chunk, ptr, stack, base, keys);
                assert(a == step_assign(rest, keys, frag));
                match assign_target(keys, frag) {
                    Some(h) => {
                        assert(keys.contains(h) && fragment_hashes(frag).contains(h)) by {
                            let hs = fragment_hashes(frag);
                            if keys.contains(hs[0]) {
                                assert(hs[0] == h);
                            } else if keys.contains(hs[1]) {
                                assert(hs[1] == h);
                            } else if keys.contains(hs[2]) {
                                assert(hs[2] == h);
                            } else {
                                assert(hs[3] == h);
                            }
                        }
                        if !rest.dom().contains(h) {
                            assert forall|k: u64| #[trigger] a.dom().contains(k) implies {
                                &&& keys.contains(k)
                                &&& fragment_hashes(a[k]).contains(k)
                            } by {
                                if k == h {
                                    assert(a[k] == frag);
                                } else {
                                    assert(rest.dom().contains(k));
                                    assert(a[k] == rest[k]);
                                }
                            }
                        } else {
                            assert forall|k: u64| #[trigger] a.dom().contains(k) implies {
                                &&& keys.contains(k)
                                &&& fragment_hashes(a[k]).contains(k)
                            } by {
                                assert(rest.dom().contains(k) && rest[k] == a[k]);
                            }
                        }
                    },
                    None => {
                        assert forall|k: u64| #[trigger] a.dom().contains(k) implies {
                            &&& keys.contains(k)
                            &&& fragment_hashes(a[k]).contains(k)
                        } by {
                            assert(rest.dom().contains(k) && rest[k] == a[k]);
                        }
                    },
                }
            }
        }
    }
}

/// Every key assigned across all directories is one of the map's own keys,
/// carrying a fragment one of whose hash candidates is that key.
pub proof fn lemma_all_assignments_sound(dirs: Seq<DirectoryInfo>, dd: Seq<u8>, keys: Set<u64>)
    ensures
        forall|k: u64|
            #[trigger] all_assignments(dirs, dd, keys).dom().contains(k) ==> {
                &&& keys.contains(k)
                &&& fragment_hashes(all_assignments(dirs, dd, keys)[k]).contains(k)
            },
    decreases dirs.len(),
{
    if dirs.len() > 0 {
        lemma_all_assignments_sound(dirs.skip(1), dd, keys);
        let d = dirs[0];
        let first = dir_assignments(dd, d, keys);
        let rest = all_assignments(dirs.skip(1), dd, keys);
        let a = all_assignments(dirs, dd, keys);
        if !(d.offset >= dd.len() || d.offset + d.size > dd.len()) {
            lemma_chunk_assignments_sound(
                dd.subrange(d.offset as int, d.offset + d.size),
                0,
                Seq::empty(),
                false,
                keys,
            );
        }
        assert(a == first.union_prefer_right(rest));
        assert forall|k: u64| #[trigger] a.dom().contains(k) implies {
            &&& keys.contains(k)
            &&& fragment_hashes(a[k]).contains(k)
        } by {
            if rest.dom().contains(k) {
                assert(a[k] == rest[k]);
            } else {
                assert(first.dom().contains(k));
                assert(a[k] == first[k]);
            }
        }
    }
}

/// Reconstruction assigns a fragment to exactly the entry whose stored key
/// equals one of the fragment's four hash candidates, and never to an
/// unrelated entry: an entry whose path changes received the lossy UTF-8
/// decoding of a fragment that hashes (under one of the four functions) to
/// that entry's own key, everything else is untouched, and no entry is added
/// or removed.
pub proof fn lemma_reconstruction_assigns_exactly(
    dirs: Seq<DirectoryInfo>,
    dd: Seq<u8>,
    m: Map<u64, FileInfoV>,
)
    ensures
        ({
            let a = all_assignments(dirs, dd, m.dom());
            let r = apply_paths(m, a);
            &&& r.dom() == m.dom()
            &&& forall|k: u64|
                m.dom().contains(k) && a.dom().contains(k) ==> #[trigger] r[k] == set_path(
                    m[k],
                    utf8_lossy_of(a[k]),
                ) && fragment_hashes(a[k]).contains(k)
            &&& forall|k: u64|
                m.dom().contains(k) && !a.dom().contains(k) ==> #[trigger] r[k] == m[k]
        }),
{
    let a = all_assignments(dirs, dd, m.dom());
    let r = apply_paths(m, a);
    lemma_all_assignments_sound(dirs, dd, m.dom());
    assert(r.dom() =~= m.dom());
}

/// Reconstructing paths twice over the same directory payload produces
/// identical assignments: the second replay writes the same path to every
/// entry the first one wrote, and touches nothing else.
pub proof fn lemma_reconstruction_idempotent(
    dirs: Seq<DirectoryInfo>,
    dd: Seq<u8>,
    m: Map<u64, FileInfoV>,
)
    ensures
        ({
            let r1 = apply_paths(m, all_assignments(dirs, dd, m.dom()));
            apply_paths(r1, all_assignments(dirs, dd, r1.dom())) == r1
        }),
{
    let a = all_assignments(dirs, dd, m.dom());
    let r1 = apply_paths(m, a);
    assert(r1.dom() =~= m.dom());
    let r2 = apply_paths(r1, all_assignments(dirs, dd, r1.dom()));
    assert(r2 =~= r1);
}

} // verus!
