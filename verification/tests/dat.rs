use exile_ggpk::dat::{DatReader, DatValue};
use exile_ggpk::schema::Schema;
use exile_ggpk::error::ArchiveError;
use exile_ggpk::schema::{Column, Table};

fn column(tname: &str) -> Column {
    Column {
        name: None,
        description: None,
        array: false,
        column_type: tname.to_string(),
        unique: false,
        localized: false,
        references: None,
    }
}

fn table(types: &[&str]) -> Table {
    Table {
        name: "rows".to_string(),
        columns: types.iter().map(|t| column(t)).collect(),
        tags: None,
        valid_for: None,
    }
}

/// A 32-bit DAT buffer: row count, the given row bytes, the 4-byte sentinel,
/// then a heap.
fn dat32(row_count: u32, rows: &[u8], heap: &[u8]) -> Vec<u8> {
    let mut buf = Vec::new();
    buf.extend_from_slice(&row_count.to_le_bytes());
    buf.extend_from_slice(rows);
    buf.extend_from_slice(&[0xBB; 4]);
    buf.extend_from_slice(heap);
    buf
}

#[test]
fn boundary_scan_finds_first_aligned_sentinel() {
    let mut rows = Vec::new();
    rows.extend_from_slice(&7i32.to_le_bytes());
    rows.extend_from_slice(&(-1i32).to_le_bytes());
    rows.extend_from_slice(&9i32.to_le_bytes());
    rows.extend_from_slice(&3i32.to_le_bytes());
    let buf = dat32(2, &rows, &[0, 0, 0, 0]);
    let reader = DatReader::new(buf, "test.dat").expect("new");
    assert!(!reader.is_64bit);
    assert_eq!(reader.row_count, 2);
    assert_eq!(reader.row_length, Some(8));
    assert_eq!(reader.data_section_offset, 20);
}

#[test]
fn boundary_scan_fails_without_sentinel() {
    let mut buf = Vec::new();
    buf.extend_from_slice(&2u32.to_le_bytes());
    buf.extend_from_slice(&[1u8; 32]);
    assert_eq!(
        DatReader::new(buf, "test.dat").unwrap_err(),
        ArchiveError::AlignedBoundaryNotFound
    );
}

/// The scan admits the very last position where the sentinel run fits: a
/// buffer ending in the sentinel still finds its boundary.
#[test]
fn sentinel_in_the_final_bytes_is_found() {
    // one row of zero bytes: the 4-byte run occupies the final bytes
    let mut buf = Vec::new();
    buf.extend_from_slice(&1u32.to_le_bytes());
    buf.extend_from_slice(&[0xBB; 4]);
    let reader = DatReader::new(buf, "t.dat").expect("new");
    assert_eq!(reader.data_section_offset, 4);
    assert_eq!(reader.row_length, Some(0));

    // 64-bit likewise, with the 8-byte run ending the buffer
    let mut buf = Vec::new();
    buf.extend_from_slice(&1u32.to_le_bytes());
    buf.extend_from_slice(&[0u8; 8]); // one row of 8 bytes
    buf.extend_from_slice(&[0xBB; 8]);
    let reader = DatReader::new(buf, "t.dat64").expect("new");
    assert_eq!(reader.data_section_offset, 12);
    assert_eq!(reader.row_length, Some(8));
}

#[test]
fn extension_selects_64bit_layout() {
    let mut buf = Vec::new();
    buf.extend_from_slice(&1u32.to_le_bytes());
    buf.extend_from_slice(&[1u8; 8]);
    buf.extend_from_slice(&[0xBB; 8]);
    buf.extend_from_slice(&[0u8; 8]);
    let reader = DatReader::new(buf, "a.datc64").expect("new");
    assert!(reader.is_64bit);
    assert_eq!(reader.row_length, Some(8));
    assert_eq!(reader.data_section_offset, 12);
}

/// Boundary: with a row count of zero, construction reads nothing past
/// offset 12 and tolerates an empty heap.
#[test]
fn zero_rows_never_scan() {
    // sentinel right at offset 4
    let buf = dat32(0, &[], &[]);
    let reader = DatReader::new(buf, "empty.dat").expect("new");
    assert_eq!(reader.row_length, Some(0));
    assert_eq!(reader.data_section_offset, 4);

    // no sentinel at 4: the heap offset stays 0, whatever follows
    let mut buf = Vec::new();
    buf.extend_from_slice(&0u32.to_le_bytes());
    buf.extend_from_slice(&[1u8; 64]);
    let reader = DatReader::new(buf, "empty.dat").expect("new");
    assert_eq!(reader.row_length, Some(0));
    assert_eq!(reader.data_section_offset, 0);

    // only the row count, nothing else: still fine
    let buf = 0u32.to_le_bytes().to_vec();
    let reader = DatReader::new(buf, "empty.dat").expect("new");
    assert_eq!(reader.data_section_offset, 0);
    assert!(reader.read_row(0, &table(&["int"])).is_err());

    // the 64-bit layout needs the 8-byte run: 4 bytes alone do not count
    let mut buf = Vec::new();
    buf.extend_from_slice(&0u32.to_le_bytes());
    buf.extend_from_slice(&[0xBB; 4]);
    buf.extend_from_slice(&[0u8; 4]);
    let reader = DatReader::new(buf, "empty.dat64").expect("new");
    assert_eq!(reader.data_section_offset, 0);

    let mut buf = Vec::new();
    buf.extend_from_slice(&0u32.to_le_bytes());
    buf.extend_from_slice(&[0xBB; 8]);
    let reader = DatReader::new(buf, "empty.dat64").expect("new");
    assert_eq!(reader.data_section_offset, 4);
}

/// Scenario: a 32-bit buffer with two rows of 8 bytes and the sentinel at
/// offset 20; row 1 is decoded from bytes 12..20 no matter how much heap
/// follows.
#[test]
fn second_row_reads_its_own_window() {
    let mut rows = Vec::new();
    rows.extend_from_slice(&100i32.to_le_bytes());
    rows.extend_from_slice(&200i32.to_le_bytes());
    rows.extend_from_slice(&300i32.to_le_bytes());
    rows.extend_from_slice(&400i32.to_le_bytes());
    let short = dat32(2, &rows, &[0, 0, 0, 0]);
    let long = dat32(2, &rows, &[0xEE; 100]);
    let t = table(&["int", "int"]);
    for buf in [short, long] {
        let reader = DatReader::new(buf, "two.dat").expect("new");
        assert_eq!(reader.data_section_offset, 20);
        let row = reader.read_row(1, &t).expect("row");
        assert!(matches!(row[0], DatValue::Int(300)));
        assert!(matches!(row[1], DatValue::Int(400)));
    }
}

/// Truncated-row robustness: the row is full length and only the columns
/// physically present decode to values other than `Unknown`.
#[test]
fn truncated_row_decodes_partially() {
    let mut data = Vec::new();
    data.extend_from_slice(&5u32.to_le_bytes());
    data.extend_from_slice(&42i32.to_le_bytes());
    data.extend_from_slice(&[7u8, 8u8]); // the second column's bytes are cut short
    let reader = DatReader {
        data,
        is_64bit: false,
        row_count: 5,
        row_length: Some(8),
        data_section_offset: 0,
        filename: "cut.dat".to_string(),
    };
    let t = table(&["int", "int", "bool"]);
    let row = reader.read_row(0, &t).expect("row");
    assert_eq!(row.len(), 3);
    assert!(matches!(row[0], DatValue::Int(42)));
    assert!(matches!(row[1], DatValue::Unknown));
    // the one-byte column still fits in what remains of the window
    assert!(matches!(row[2], DatValue::Bool(true)));
    // a row starting past the end of the buffer is out of bounds
    assert_eq!(reader.read_row(4, &t).unwrap_err(), ArchiveError::OutOfBounds);
}

#[test]
fn floats_are_bit_patterns_and_strings_decode_from_heap() {
    let mut rows = Vec::new();
    rows.extend_from_slice(&1.5f32.to_le_bytes());
    rows.extend_from_slice(&4u32.to_le_bytes()); // string offset: just past the sentinel
    let mut heap = Vec::new();
    for u in "Hi".encode_utf16() {
        heap.extend_from_slice(&u.to_le_bytes());
    }
    heap.extend_from_slice(&[0, 0, 0, 0]);
    let buf = dat32(1, &rows, &heap);
    let reader = DatReader::new(buf, "one.dat").expect("new");
    let t = table(&["float", "string"]);
    let row = reader.read_row(0, &t).expect("row");
    match row[0] {
        DatValue::Float(bits) => assert_eq!(f32::from_bits(bits), 1.5),
        _ => panic!("expected a float"),
    }
    match &row[1] {
        DatValue::String(s) => assert_eq!(s, "Hi"),
        _ => panic!("expected a string"),
    }
}

#[test]
fn foreign_row_null_sentinel() {
    let mut rows = Vec::new();
    rows.extend_from_slice(&0xfefefefeu32.to_le_bytes());
    rows.extend_from_slice(&17u32.to_le_bytes());
    let buf = dat32(1, &rows, &[0, 0, 0, 0]);
    let reader = DatReader::new(buf, "f.dat").expect("new");
    let t = table(&["foreign_row", "foreign_row"]);
    let row = reader.read_row(0, &t).expect("row");
    assert!(matches!(row[0], DatValue::ForeignRow(u32::MAX)));
    assert!(matches!(row[1], DatValue::ForeignRow(17)));
}

/// Property: a list with a count of zero yields no elements and never
/// touches the heap.
#[test]
fn empty_list_reads_nothing() {
    let mut rows = Vec::new();
    rows.extend_from_slice(&0u32.to_le_bytes()); // count 0
    rows.extend_from_slice(&1000u32.to_le_bytes()); // offset far past the buffer
    let buf = dat32(1, &rows, &[0, 0, 0, 0]);
    let reader = DatReader::new(buf, "l.dat").expect("new");
    let t = table(&["ref|list"]);
    let row = reader.read_row(0, &t).expect("row");
    match row[0] {
        DatValue::List(count, offset) => {
            assert_eq!(count, 0);
            let items = reader.read_list_values(offset, count, &t.columns[0]);
            assert_eq!(items.len(), 0);
        },
        _ => panic!("expected a list"),
    }
}

#[test]
fn list_elements_decode_at_heap_positions() {
    let mut rows = Vec::new();
    rows.extend_from_slice(&2u32.to_le_bytes()); // count
    rows.extend_from_slice(&4u32.to_le_bytes()); // offset: just past the sentinel
    let mut heap = Vec::new();
    heap.extend_from_slice(&11i32.to_le_bytes());
    heap.extend_from_slice(&22i32.to_le_bytes());
    let buf = dat32(1, &rows, &heap);
    let reader = DatReader::new(buf, "l.dat").expect("new");
    let t = table(&["ref|list"]);
    let row = reader.read_row(0, &t).expect("row");
    match row[0] {
        DatValue::List(count, offset) => {
            assert_eq!(count, 2);
            assert_eq!(offset, reader.data_section_offset + 4);
            let items = reader.read_list_values(offset, count, &column("int"));
            assert_eq!(items.len(), 2);
            assert!(matches!(items[0], DatValue::Int(11)));
            assert!(matches!(items[1], DatValue::Int(22)));
        },
        _ => panic!("expected a list"),
    }
}

#[test]
fn schema_lookup_prefers_highest_valid_for() {
    let mut t1 = table(&["int"]);
    t1.name = "Items".to_string();
    t1.valid_for = Some(1);
    let mut t2 = table(&["int", "int"]);
    t2.name = "items".to_string();
    t2.valid_for = Some(3);
    let mut t3 = table(&["bool"]);
    t3.name = "Other".to_string();
    let schema = Schema { version: 1, created_at: 0, tables: vec![t1, t2, t3], enumeration: None };
    let found = schema.lookup_table("ITEMS").expect("lookup");
    assert_eq!(found.valid_for, Some(3));
    assert_eq!(found.columns.len(), 2);
    match schema.lookup_table("missing") {
        Err(e) => assert_eq!(e, ArchiveError::TableNotFound),
        Ok(_) => panic!("there is no such table"),
    }
}
