use exile_ggpk::index::{DirectoryInfo, Index};

fn push_u32(buf: &mut Vec<u8>, v: u32) {
    buf.extend_from_slice(&v.to_le_bytes());
}

fn push_u64(buf: &mut Vec<u8>, v: u64) {
    buf.extend_from_slice(&v.to_le_bytes());
}

/// An index payload with one bundle and the given file entries (paths start
/// empty) and directory descriptors.
fn index_payload(files: &[(u64, u32, u32, u32)], dirs: &[(u64, u32, u32)]) -> Vec<u8> {
    let mut buf = Vec::new();
    push_u32(&mut buf, 1); // bundle count
    push_u32(&mut buf, 5); // name length
    buf.extend_from_slice(b"chunk");
    push_u32(&mut buf, 4096); // uncompressed size
    push_u32(&mut buf, files.len() as u32);
    for (h, bi, off, sz) in files {
        push_u64(&mut buf, *h);
        push_u32(&mut buf, *bi);
        push_u32(&mut buf, *off);
        push_u32(&mut buf, *sz);
    }
    push_u32(&mut buf, dirs.len() as u32);
    for (h, off, sz) in dirs {
        push_u64(&mut buf, *h);
        push_u32(&mut buf, *off);
        push_u32(&mut buf, *sz);
        push_u32(&mut buf, 0); // recursive size
    }
    buf
}

/// The reconstruction stream of scenario B: `base` toggled on, one fragment
/// `Art/` pushed, `base` toggled off, a second fragment referencing index 0
/// with the string `weapon.dds`.
fn scenario_b_stream() -> Vec<u8> {
    let mut chunk = Vec::new();
    push_u32(&mut chunk, 0); // toggle base on, clear the stack
    push_u32(&mut chunk, 1); // index 0 after the offset-by-one
    chunk.extend_from_slice(b"Art/\0");
    push_u32(&mut chunk, 0); // toggle base off
    push_u32(&mut chunk, 1); // reference the pushed prefix
    chunk.extend_from_slice(b"weapon.dds\0");
    chunk
}

const ART_WEAPON_MURMUR: u64 = 0x71d2713acfbab7ea; // murmur of "Art/weapon.dds"
const OTHER_FNV_LOWER: u64 = 0x8e121837829c731e; // FNV-1a of "other/file.txt"

#[test]
fn read_parses_bundles_files_and_directories() {
    let payload = index_payload(&[(0xAB, 0, 16, 32)], &[(7, 0, 24)]);
    let (index, dirs, rem) = Index::read(&payload).expect("read");
    assert_eq!(index.bundles.len(), 1);
    assert_eq!(index.bundles[0].name, "chunk");
    assert_eq!(index.bundles[0].uncompressed_size, 4096);
    assert_eq!(index.files.len(), 1);
    let f = index.files.get(&0xAB).expect("file entry");
    assert_eq!(f.bundle_index, 0);
    assert_eq!(f.file_offset, 16);
    assert_eq!(f.file_size, 32);
    assert_eq!(f.path, "");
    assert_eq!(
        dirs,
        vec![DirectoryInfo { path_hash: 7, offset: 0, size: 24, recursive_size: 0 }]
    );
    assert_eq!(rem, payload.len());
}

#[test]
fn read_rejects_truncated_payloads() {
    let payload = index_payload(&[(0xAB, 0, 16, 32)], &[]);
    for cut in [0, 3, 10, payload.len() - 1] {
        assert!(Index::read(&payload[..cut]).is_err());
    }
}

/// Scenario: the stream pushes `Art/` as a prefix, then builds
/// `Art/weapon.dds`; the fragment is assigned to the file entry whose stored
/// hash matches, and unrelated entries are untouched.
#[test]
fn reconstruction_assigns_fragment_to_matching_hash() {
    let chunk = scenario_b_stream();
    let payload = index_payload(
        &[(ART_WEAPON_MURMUR, 0, 0, 1), (0xDEAD_BEEF, 0, 1, 1)],
        &[(1, 0, chunk.len() as u32)],
    );
    let (mut index, dirs, _) = Index::read(&payload).expect("read");
    Index::parse_paths(&dirs, &chunk, &mut index.files);
    assert_eq!(index.files.get(&ART_WEAPON_MURMUR).unwrap().path, "Art/weapon.dds");
    assert_eq!(index.files.get(&0xDEAD_BEEF).unwrap().path, "");
}

/// The lowercased FNV candidate is tried when the others miss.
#[test]
fn reconstruction_tries_lowercase_fnv_candidate() {
    let mut chunk = Vec::new();
    push_u32(&mut chunk, 0);
    push_u32(&mut chunk, 0); // toggle base back off without pushing anything
    push_u32(&mut chunk, 1);
    chunk.extend_from_slice(b"Other/File.txt\0");
    let payload = index_payload(
        &[(OTHER_FNV_LOWER, 0, 0, 1)],
        &[(1, 0, chunk.len() as u32)],
    );
    let (mut index, dirs, _) = Index::read(&payload).expect("read");
    Index::parse_paths(&dirs, &chunk, &mut index.files);
    assert_eq!(index.files.get(&OTHER_FNV_LOWER).unwrap().path, "Other/File.txt");
}

/// Reconstructing twice over the same directory payload produces identical
/// assignments.
#[test]
fn reconstruction_is_idempotent() {
    let chunk = scenario_b_stream();
    let payload = index_payload(
        &[(ART_WEAPON_MURMUR, 0, 0, 1), (0xDEAD_BEEF, 0, 1, 1)],
        &[(1, 0, chunk.len() as u32)],
    );
    let (mut index, dirs, _) = Index::read(&payload).expect("read");
    Index::parse_paths(&dirs, &chunk, &mut index.files);
    let first: Vec<(u64, String)> = {
        let mut v: Vec<(u64, String)> =
            index.files.iter().map(|(k, f)| (*k, f.path.clone())).collect();
        v.sort();
        v
    };
    Index::parse_paths(&dirs, &chunk, &mut index.files);
    let second: Vec<(u64, String)> = {
        let mut v: Vec<(u64, String)> =
            index.files.iter().map(|(k, f)| (*k, f.path.clone())).collect();
        v.sort();
        v
    };
    assert_eq!(first, second);
}

/// A directory descriptor whose slice leaves the payload contributes
/// nothing.
#[test]
fn reconstruction_skips_out_of_range_directories() {
    let chunk = scenario_b_stream();
    let payload = index_payload(
        &[(ART_WEAPON_MURMUR, 0, 0, 1)],
        &[(1, 4, chunk.len() as u32)], // offset 4 + full size runs past the slice
    );
    let (mut index, dirs, _) = Index::read(&payload).expect("read");
    Index::parse_paths(&dirs, &chunk, &mut index.files);
    assert_eq!(index.files.get(&ART_WEAPON_MURMUR).unwrap().path, "");
}
