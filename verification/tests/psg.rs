use exile_ggpk::error::ArchiveError;
use exile_ggpk::psg::parse_psg;

#[test]
fn test_psg_parse() {
    // Construct a mock PSG buffer
    let mut buffer = Vec::new();

    // Header: a version byte and 12 unknown bytes (the root list starts at 13)
    buffer.push(0); // Version
    for _ in 0..12 {
        buffer.push(0);
    }

    // Root Length: 1
    buffer.extend_from_slice(&1u32.to_le_bytes());
    // Root 1: id=100, curvature=0
    buffer.extend_from_slice(&100u32.to_le_bytes());
    buffer.extend_from_slice(&0u32.to_le_bytes());

    // Group Length: 1
    buffer.extend_from_slice(&1u32.to_le_bytes());

    // Group 1 Header
    buffer.extend_from_slice(&500.0f32.to_le_bytes()); // x
    buffer.extend_from_slice(&600.0f32.to_le_bytes()); // y
    buffer.extend_from_slice(&0u32.to_le_bytes()); // flag
    buffer.extend_from_slice(&0u32.to_le_bytes()); // unk1
    buffer.push(0); // unk2 (byte)
    buffer.extend_from_slice(&1u32.to_le_bytes()); // passive_length

    // Group 1 -> Node 1
    buffer.extend_from_slice(&200u32.to_le_bytes()); // rowid
    buffer.extend_from_slice(&10u32.to_le_bytes()); // radius
    buffer.extend_from_slice(&5u32.to_le_bytes()); // position
    buffer.extend_from_slice(&1u32.to_le_bytes()); // connections_length

    // Node 1 -> Connection 1
    buffer.extend_from_slice(&300u32.to_le_bytes()); // conn_id
    buffer.extend_from_slice(&0i32.to_le_bytes()); // curvature

    let result = parse_psg(&buffer).expect("Failed to parse PSG");
    assert_eq!(result.roots.len(), 1);
    assert_eq!(result.roots[0], 100);
    assert_eq!(result.groups.len(), 1);
    assert_eq!(result.groups[0].nodes.len(), 1);
    assert_eq!(result.groups[0].nodes[0].skill_id, 200);
    assert_eq!(result.groups[0].nodes[0].connections[0], 300);
}

#[test]
fn psg_group_coordinates_are_float_bits() {
    let mut buffer = vec![0u8; 13];
    buffer.extend_from_slice(&0u32.to_le_bytes()); // no roots
    buffer.extend_from_slice(&1u32.to_le_bytes()); // one group
    buffer.extend_from_slice(&1.25f32.to_le_bytes());
    buffer.extend_from_slice(&(-2.5f32).to_le_bytes());
    buffer.extend_from_slice(&0u32.to_le_bytes());
    buffer.extend_from_slice(&0u32.to_le_bytes());
    buffer.push(0);
    buffer.extend_from_slice(&0u32.to_le_bytes()); // no nodes
    let result = parse_psg(&buffer).expect("parse");
    assert_eq!(f32::from_bits(result.groups[0].x), 1.25);
    assert_eq!(f32::from_bits(result.groups[0].y), -2.5);
}

#[test]
fn psg_rejects_truncation_and_unrealistic_root_counts() {
    assert_eq!(parse_psg(&[0u8; 10]).unwrap_err(), ArchiveError::OutOfBounds);

    let mut buffer = vec![0u8; 13];
    buffer.extend_from_slice(&5000u32.to_le_bytes());
    assert_eq!(parse_psg(&buffer).unwrap_err(), ArchiveError::CorruptContainer);

    let mut buffer = vec![0u8; 13];
    buffer.extend_from_slice(&2u32.to_le_bytes()); // two roots promised, none present
    assert_eq!(parse_psg(&buffer).unwrap_err(), ArchiveError::OutOfBounds);
}
