use exile_ggpk::csd::parse_csd;
use exile_ggpk::error::ArchiveError;

#[test]
fn test_csd_parse() {
    // Construct a mock UTF-16LE buffer with localization
    let text = "description
2 id1 id2
1
1 \"Text with \\n newline\" canonical_line param1 100
lang \"Traditional Chinese\"
1 \"Chinese Text\"
lang \"Japanese\"
1 \"Japanese Text\"";

    let u16_vec: Vec<u16> = text.encode_utf16().collect();
    let mut bytes = Vec::new();
    for u in u16_vec {
        bytes.extend_from_slice(&u.to_le_bytes());
    }

    let result = parse_csd(&bytes, "test.csd").expect("Failed to parse");
    assert_eq!(result.entries.len(), 1);
    let entry = &result.entries[0];
    assert_eq!(entry.ids.len(), 2);

    // Should capture English + Chinese + Japanese = 3 descriptions
    assert_eq!(entry.descriptions.len(), 3);

    assert_eq!(entry.descriptions[0].description, "Text with \n newline");
    assert!(entry.descriptions[0].language.is_none());

    assert_eq!(entry.descriptions[1].description, "Chinese Text");
    assert_eq!(entry.descriptions[1].language.as_deref(), Some("Traditional Chinese"));

    assert_eq!(entry.descriptions[2].description, "Japanese Text");
    assert_eq!(entry.descriptions[2].language.as_deref(), Some("Japanese"));

    assert_eq!(result.languages.len(), 3);
    assert!(result.languages.contains(&"Traditional Chinese".to_string()));
    assert!(result.languages.contains(&"Japanese".to_string()));
    assert!(result.languages.contains(&"English".to_string()));
}

#[test]
fn csd_parse_details() {
    let text = "description
2 id1 id2
1
1 \"Text\" canonical_line param1 100";
    let mut bytes = Vec::new();
    for u in text.encode_utf16() {
        bytes.extend_from_slice(&u.to_le_bytes());
    }
    let result = parse_csd(&bytes, "x.csd").expect("parse");
    assert_eq!(result.path, "x.csd");
    let entry = &result.entries[0];
    assert_eq!(entry.ids, vec!["id1".to_string(), "id2".to_string()]);
    let d = &entry.descriptions[0];
    assert_eq!(d.operator, "1");
    assert!(d.is_canonical);
    assert_eq!(d.parameters.len(), 1);
    assert_eq!(d.parameters[0].name, "param1");
    assert_eq!(d.parameters[0].value, 100);
}

#[test]
fn csd_languages_come_out_sorted() {
    let text = "description
1 id1
2
lang \"Zulu\"
1 \"z\"
lang \"Arabic\"
1 \"a\"";
    let mut bytes = Vec::new();
    for u in text.encode_utf16() {
        bytes.extend_from_slice(&u.to_le_bytes());
    }
    let result = parse_csd(&bytes, "x.csd").expect("parse");
    assert_eq!(result.languages, vec!["Arabic".to_string(), "Zulu".to_string()]);
}

#[test]
fn csd_no_description_entries() {
    let text = "no_description some_stat_id";
    let mut bytes = Vec::new();
    for u in text.encode_utf16() {
        bytes.extend_from_slice(&u.to_le_bytes());
    }
    let result = parse_csd(&bytes, "x.csd").expect("parse");
    assert_eq!(result.entries.len(), 1);
    assert_eq!(result.entries[0].ids, vec!["some_stat_id".to_string()]);
    assert!(result.entries[0].descriptions.is_empty());
}

#[test]
fn csd_rejects_invalid_utf16() {
    // a lone high surrogate is not valid UTF-16
    let bytes = 0xD800u16.to_le_bytes().to_vec();
    assert_eq!(parse_csd(&bytes, "bad.csd").unwrap_err(), ArchiveError::CorruptContainer);
}
