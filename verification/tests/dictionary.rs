use word_quiz::dictionary::{JsonDictionary, WordDefinitionPair};
use word_quiz::format::FormatError;

#[test]
fn return_len_0_on_empty_json() {
    let json = "[]";
    let dictionary = JsonDictionary::new(json).unwrap();

    assert_eq!(dictionary.len(), 0);
}

#[test]
fn return_error_on_root_object_instead_of_array() {
    let json = "{}";
    let dictionary = JsonDictionary::new(json);

    assert_eq!(dictionary.is_err(), true);
}

#[test]
fn return_error_on_invalid_json() {
    let json = "{invalid}";
    let dictionary = JsonDictionary::new(json);

    assert_eq!(dictionary.is_err(), true);
}

#[test]
fn return_len_1_on_valid_json_with_1_pair() {
    let json = r#"
    [
        {
            "WORD": "Rust",
            "DEFINITION": "Awesome Language!"
        }
    ]
    "#;
    let dictionary = JsonDictionary::new(json).unwrap();

    assert_eq!(dictionary.len(), 1);
    assert_eq!(dictionary.at(0).word, "Rust");
    assert_eq!(dictionary.at(0).definition, "Awesome Language!");
}

#[test]
fn root_object_reports_not_a_sequence() {
    let err = JsonDictionary::new("{}").unwrap_err();
    assert_eq!(err, FormatError::NotASequence);
    assert_eq!(err.detail(), "root not a sequence");
}

#[test]
fn missing_definition_is_rejected() {
    let err = JsonDictionary::new(r#"[{"WORD": "rust"}]"#).unwrap_err();
    assert_eq!(err, FormatError::MissingField);
    assert_eq!(err.detail(), "missing word or definition");
}

#[test]
fn empty_word_is_rejected() {
    let err = JsonDictionary::new(r#"[{"WORD": "", "DEFINITION": "d"}]"#).unwrap_err();
    assert_eq!(err, FormatError::MissingField);
}

#[test]
fn non_record_element_is_rejected() {
    let err = JsonDictionary::new(r#"[1]"#).unwrap_err();
    assert_eq!(err, FormatError::MissingField);
}

#[test]
fn unterminated_document_is_malformed() {
    let err = JsonDictionary::new(r#"[{"WORD": "a", "DEFINITION": "b"}"#).unwrap_err();
    assert_eq!(err, FormatError::Malformed);
}

#[test]
fn extra_fields_are_ignored() {
    let json = r#"[{"WORD": "cache", "HINT": 5, "SEEN": true, "NOTES": null,
        "TAGS": ["x", {"y": 1}], "DEFINITION": "a hidden store"}]"#;
    let dictionary = JsonDictionary::new(json).unwrap();
    assert_eq!(dictionary.len(), 1);
    assert_eq!(dictionary.at(0).word, "cache");
    assert_eq!(dictionary.at(0).definition, "a hidden store");
}

#[test]
fn duplicate_words_are_permitted_and_order_kept() {
    let json = r#"[
        {"WORD": "a", "DEFINITION": "first"},
        {"WORD": "b", "DEFINITION": "second"},
        {"WORD": "a", "DEFINITION": "third"}
    ]"#;
    let dictionary = JsonDictionary::new(json).unwrap();
    assert_eq!(dictionary.len(), 3);
    assert_eq!(dictionary.at(0).definition, "first");
    assert_eq!(dictionary.at(1).definition, "second");
    assert_eq!(dictionary.at(2).definition, "third");
}

#[test]
fn string_escapes_are_decoded() {
    let json = "[{\"WORD\": \"a\\\"b\", \"DEFINITION\": \"c\\\\d\\te\"}]";
    let dictionary = JsonDictionary::new(json).unwrap();
    assert_eq!(dictionary.at(0).word, "a\"b");
    assert_eq!(dictionary.at(0).definition, "c\\d\te");
}

#[test]
fn from_pairs_builds_an_in_memory_dictionary() {
    let pairs = vec![
        WordDefinitionPair { word: "sun".to_string(), definition: "the star".to_string() },
        WordDefinitionPair { word: "moon".to_string(), definition: "the satellite".to_string() },
    ];
    let dictionary = JsonDictionary::from_pairs(pairs);
    assert_eq!(dictionary.len(), 2);
    assert_eq!(dictionary.at(1).word, "moon");
}
