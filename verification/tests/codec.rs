use word_quiz::format::{parse_dictionary, serialize_dictionary, FormatError, RawEntry};

#[test]
fn parse_returns_entries_in_order() {
    let doc = br#"[{"WORD":"rust","DEFINITION":"an oxide coating on iron"},
                   {"WORD":"cache","DEFINITION":"a hidden store"}]"#;
    let entries = parse_dictionary(doc).unwrap();
    assert_eq!(entries.len(), 2);
    assert_eq!(entries[0].word, b"rust".to_vec());
    assert_eq!(entries[0].definition, b"an oxide coating on iron".to_vec());
    assert_eq!(entries[1].word, b"cache".to_vec());
}

#[test]
fn parse_rejects_number_root() {
    assert_eq!(parse_dictionary(b"17").unwrap_err(), FormatError::NotASequence);
}

#[test]
fn parse_rejects_trailing_content() {
    assert_eq!(parse_dictionary(b"[] x").unwrap_err(), FormatError::Malformed);
}

#[test]
fn parse_rejects_bad_escape() {
    assert_eq!(
        parse_dictionary(b"[{\"WORD\":\"a\\qb\",\"DEFINITION\":\"d\"}]").unwrap_err(),
        FormatError::Malformed
    );
}

#[test]
fn parse_skips_numbers_booleans_and_nulls() {
    let doc = br#"[{"N": -12.5e+3, "T": true, "F": false, "Z": null,
                    "WORD": "w", "DEFINITION": "d"}]"#;
    let entries = parse_dictionary(doc).unwrap();
    assert_eq!(entries.len(), 1);
    assert_eq!(entries[0].word, b"w".to_vec());
}

#[test]
fn last_duplicate_field_wins() {
    let doc = br#"[{"WORD": "first", "WORD": "second", "DEFINITION": "d"}]"#;
    let entries = parse_dictionary(doc).unwrap();
    assert_eq!(entries[0].word, b"second".to_vec());
}

#[test]
fn serialize_writes_the_canonical_form() {
    let entries = vec![RawEntry { word: b"a\"b".to_vec(), definition: b"c\\d".to_vec() }];
    let doc = serialize_dictionary(&entries);
    assert_eq!(doc, b"[{\"WORD\":\"a\\\"b\",\"DEFINITION\":\"c\\\\d\"}]".to_vec());
}

#[test]
fn serialize_then_parse_returns_the_same_entries() {
    let entries = vec![
        RawEntry { word: b"rust".to_vec(), definition: b"an oxide coating on iron".to_vec() },
        RawEntry { word: b"qu\"ote".to_vec(), definition: b"back\\slash".to_vec() },
        RawEntry { word: "naïve".as_bytes().to_vec(), definition: "non-ASCII text".as_bytes().to_vec() },
    ];
    let doc = serialize_dictionary(&entries);
    let reread = parse_dictionary(&doc).unwrap();
    assert_eq!(reread.len(), entries.len());
    for i in 0..entries.len() {
        assert_eq!(reread[i].word, entries[i].word);
        assert_eq!(reread[i].definition, entries[i].definition);
    }
}

#[test]
fn serialize_empty_then_parse_is_empty() {
    let doc = serialize_dictionary(&Vec::new());
    assert_eq!(doc, b"[]".to_vec());
    assert_eq!(parse_dictionary(&doc).unwrap().len(), 0);
}

#[test]
fn parse_distinguishes_bad_root_from_wrong_root() {
    assert_eq!(parse_dictionary(b"{invalid}").unwrap_err(), FormatError::Malformed);
    assert_eq!(parse_dictionary(b"{}").unwrap_err(), FormatError::NotASequence);
    assert_eq!(parse_dictionary(b"").unwrap_err(), FormatError::Malformed);
}
