use exile_ggpk::error::ArchiveError;
use exile_ggpk::ggpk::{ChildKind, GgpkReader};
use exile_ggpk::record::{DirectoryRecord, RecordTag};

fn push_u32(buf: &mut Vec<u8>, v: u32) {
    buf.extend_from_slice(&v.to_le_bytes());
}

fn push_u64(buf: &mut Vec<u8>, v: u64) {
    buf.extend_from_slice(&v.to_le_bytes());
}

/// The 28-byte root record: length, root magic, version, root offset, free
/// offset.
fn root_record(version: u32, root_offset: u64, free_offset: u64) -> Vec<u8> {
    let mut buf = Vec::new();
    push_u32(&mut buf, 28);
    push_u32(&mut buf, RecordTag::TAG_GGPK);
    push_u32(&mut buf, version);
    push_u64(&mut buf, root_offset);
    push_u64(&mut buf, free_offset);
    buf
}

/// A directory record with UTF-32 names (version 4 and up).
fn dir_record_utf32(name: &str, entries: &[(u32, u64)]) -> Vec<u8> {
    let chars: Vec<char> = name.chars().collect();
    let len = 8 + 8 + 32 + 4 * chars.len() + 4 + 12 * entries.len();
    let mut buf = Vec::new();
    push_u32(&mut buf, len as u32);
    push_u32(&mut buf, RecordTag::TAG_PDIR);
    push_u32(&mut buf, (chars.len() + 1) as u32);
    push_u32(&mut buf, entries.len() as u32);
    buf.extend_from_slice(&[0u8; 32]);
    for c in &chars {
        push_u32(&mut buf, *c as u32);
    }
    push_u32(&mut buf, 0);
    for (h, off) in entries {
        push_u32(&mut buf, *h);
        push_u64(&mut buf, *off);
    }
    assert_eq!(buf.len(), len);
    buf
}

/// A file record with a UTF-32 name followed by its raw data bytes.
fn file_record_utf32(name: &str, body: &[u8]) -> Vec<u8> {
    let chars: Vec<char> = name.chars().collect();
    let len = 8 + 4 + 32 + 4 * chars.len() + 4 + body.len();
    let mut buf = Vec::new();
    push_u32(&mut buf, len as u32);
    push_u32(&mut buf, RecordTag::TAG_FILE);
    push_u32(&mut buf, (chars.len() + 1) as u32);
    buf.extend_from_slice(&[0u8; 32]);
    for c in &chars {
        push_u32(&mut buf, *c as u32);
    }
    push_u32(&mut buf, 0);
    buf.extend_from_slice(body);
    assert_eq!(buf.len(), len);
    buf
}

#[test]
fn open_recovers_root_record_fields() {
    let buf = root_record(4, 0x1122334455667788, 0x99AABBCCDDEEFF00);
    let reader = GgpkReader::open(buf).expect("open");
    assert_eq!(reader.version, 4);
    assert_eq!(reader.root_offset, 0x1122334455667788);
}

#[test]
fn open_rejects_bad_magic_and_short_buffers() {
    match GgpkReader::open(vec![1, 2, 3]) {
        Err(e) => assert_eq!(e, ArchiveError::CorruptContainer),
        Ok(_) => panic!("short buffer should not open"),
    }
    let mut buf = root_record(4, 28, 0);
    buf[4] = 0x00; // damage the magic
    match GgpkReader::open(buf) {
        Err(e) => assert_eq!(e, ArchiveError::CorruptContainer),
        Ok(_) => panic!("bad magic should not open"),
    }
    let buf = root_record(4, 28, 0);
    match GgpkReader::open(buf[0..20].to_vec()) {
        Err(e) => assert_eq!(e, ArchiveError::OutOfBounds),
        Ok(_) => panic!("cut root record should not open"),
    }
}

#[test]
fn utf32_directory_name_roundtrip() {
    let name = "S\u{00F6}me D\u{1F600}ir"; // includes a non-ASCII and a supplementary character
    let rec = dir_record_utf32(name, &[]);
    let dir = DirectoryRecord::read(&rec, 0, 4).expect("read");
    assert_eq!(dir.name, name);
}

#[test]
fn utf16_directory_name_roundtrip() {
    // version below 4: names are UTF-16LE with a 2-byte terminator
    let name = "Mu\u{00DF}ic\u{1F3B5}"; // the last character needs a surrogate pair
    let units: Vec<u16> = name.encode_utf16().collect();
    let len = 8 + 8 + 32 + 2 * units.len() + 2;
    let mut buf = Vec::new();
    push_u32(&mut buf, len as u32);
    push_u32(&mut buf, RecordTag::TAG_PDIR);
    // the stored length counts UTF-16 code units plus the terminator
    push_u32(&mut buf, (units.len() + 1) as u32);
    push_u32(&mut buf, 0);
    buf.extend_from_slice(&[0u8; 32]);
    for u in &units {
        buf.extend_from_slice(&u.to_le_bytes());
    }
    buf.extend_from_slice(&[0u8, 0u8]);
    let dir = DirectoryRecord::read(&buf, 0, 3).expect("read");
    assert_eq!(dir.name, name);
}

/// Scenario: a root with one directory containing one file named
/// `items.dat64`; resolving that path yields a file record whose data length
/// equals the body bytes written.
#[test]
fn resolve_path_finds_file_and_its_data() {
    let body = b"HELLO";
    let root_rec_off = 28u64;
    let root_dir = dir_record_utf32("", &[(1, 0)]); // entry offset patched below
    let file_off = root_rec_off + root_dir.len() as u64;
    let root_dir = dir_record_utf32("", &[(1, file_off)]);
    let file_rec = file_record_utf32("items.dat64", body);

    let mut buf = root_record(4, root_rec_off, 0);
    buf.extend_from_slice(&root_dir);
    buf.extend_from_slice(&file_rec);

    let reader = GgpkReader::open(buf).expect("open");
    let found = reader
        .read_file_by_path(&vec!["items.dat64".to_string()])
        .expect("file should resolve");
    assert_eq!(found.name, "items.dat64");
    assert_eq!(found.data_length, body.len() as u64);
    let data = reader
        .get_data_slice(found.data_offset, found.data_length)
        .expect("slice");
    assert_eq!(data, body);

    // case-insensitive match
    let found = reader.read_file_by_path(&vec!["ITEMS.DAT64".to_string()]);
    assert!(found.is_some());

    // unmatched segment resolves to nothing
    assert!(reader.read_file_by_path(&vec!["missing.txt".to_string()]).is_none());
}

#[test]
fn list_children_reports_kinds_and_names() {
    let root_rec_off = 28u64;
    let probe = dir_record_utf32("", &[(1, 0), (2, 0)]);
    let sub_off = root_rec_off + probe.len() as u64;
    let sub_dir = dir_record_utf32("Data", &[]);
    let file_off = sub_off + sub_dir.len() as u64;
    let root_dir = dir_record_utf32("", &[(1, sub_off), (2, file_off)]);
    let file_rec = file_record_utf32("readme.txt", b"x");

    let mut buf = root_record(4, root_rec_off, 0);
    buf.extend_from_slice(&root_dir);
    buf.extend_from_slice(&sub_dir);
    buf.extend_from_slice(&file_rec);

    let reader = GgpkReader::open(buf).expect("open");
    let children = reader.list_files_in_directory(&vec![]).expect("list");
    assert_eq!(children.len(), 2);
    assert_eq!(children[0].kind, ChildKind::Dir);
    assert_eq!(children[0].name, "Data");
    assert_eq!(children[1].kind, ChildKind::File);
    assert_eq!(children[1].name, "readme.txt");
}

#[test]
fn poe2_heuristic_needs_data_then_balance() {
    let root_rec_off = 28u64;
    let probe_root = dir_record_utf32("", &[(1, 0)]);
    let data_off = root_rec_off + probe_root.len() as u64;
    let probe_data = dir_record_utf32("Data", &[(1, 0)]);
    let balance_off = data_off + probe_data.len() as u64;
    let root_dir = dir_record_utf32("", &[(1, data_off)]);
    let data_dir = dir_record_utf32("Data", &[(1, balance_off)]);
    let balance_dir = dir_record_utf32("Balance", &[]);

    let mut buf = root_record(4, root_rec_off, 0);
    buf.extend_from_slice(&root_dir);
    buf.extend_from_slice(&data_dir);
    buf.extend_from_slice(&balance_dir);

    let reader = GgpkReader::open(buf).expect("open");
    assert!(reader.is_poe2_heuristic());
}

#[test]
fn reading_a_file_record_as_a_directory_is_a_type_error() {
    let root_rec_off = 28u64;
    let probe = dir_record_utf32("", &[(1, 0)]);
    let file_off = root_rec_off + probe.len() as u64;
    let root_dir = dir_record_utf32("", &[(1, file_off)]);
    let file_rec = file_record_utf32("a.txt", b"x");
    let mut buf = root_record(4, root_rec_off, 0);
    buf.extend_from_slice(&root_dir);
    buf.extend_from_slice(&file_rec);
    let reader = GgpkReader::open(buf).expect("open");
    match reader.read_directory(file_off) {
        Err(e) => assert_eq!(e, ArchiveError::UnexpectedRecordType),
        Ok(_) => panic!("a file record must not read as a directory"),
    }
    match reader.read_file_record(root_rec_off + 0) {
        Err(e) => assert_eq!(e, ArchiveError::UnexpectedRecordType),
        Ok(_) => panic!("a directory record must not read as a file"),
    }
}

#[test]
fn resolve_path_descends_directories() {
    let body = b"DATA";
    let root_rec_off = 28u64;
    let probe_root = dir_record_utf32("", &[(1, 0)]);
    let sub_off = root_rec_off + probe_root.len() as u64;
    let probe_sub = dir_record_utf32("Data", &[(1, 0)]);
    let file_off = sub_off + probe_sub.len() as u64;
    let root_dir = dir_record_utf32("", &[(1, sub_off)]);
    let sub_dir = dir_record_utf32("Data", &[(1, file_off)]);
    let file_rec = file_record_utf32("a.txt", body);

    let mut buf = root_record(4, root_rec_off, 0);
    buf.extend_from_slice(&root_dir);
    buf.extend_from_slice(&sub_dir);
    buf.extend_from_slice(&file_rec);

    let reader = GgpkReader::open(buf).expect("open");
    let found = reader
        .read_file_by_path(&vec!["data".to_string(), "A.TXT".to_string()])
        .expect("nested file should resolve");
    assert_eq!(found.data_length, body.len() as u64);

    // a non-terminal segment that names a file resolves to nothing
    assert!(reader
        .read_file_by_path(&vec!["Data".to_string(), "a.txt".to_string(), "x".to_string()])
        .is_none());
    // a terminal segment that names a directory resolves to nothing
    assert!(reader.read_file_by_path(&vec!["Data".to_string()]).is_none());
}
