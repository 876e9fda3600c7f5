use extension_count::labels::{label_for_extension, labels_from_entries, parse_labels, LabelError};

#[test]
fn load_labels_reads_json() {
    let labels = parse_labels(r#"{"rs":"Rust","ts":"TypeScript"}"#).expect("labels");
    assert_eq!(label_for_extension(&labels, ".rs").as_deref(), Some("Rust"));
    assert_eq!(label_for_extension(&labels, ".ts").as_deref(), Some("TypeScript"));
    assert_eq!(label_for_extension(&labels, ".md"), None);
}

#[test]
fn load_labels_invalid_json_returns_error() {
    assert_eq!(parse_labels("{").err(), Some(LabelError::InvalidData));
    assert_eq!(parse_labels(r#"{"rs": 1}"#).err(), Some(LabelError::InvalidData));
    assert_eq!(parse_labels(r#"["rs"]"#).err(), Some(LabelError::InvalidData));
}

#[test]
fn empty_json_object_gives_no_labels() {
    let labels = parse_labels("{}").expect("labels");
    assert_eq!(label_for_extension(&labels, ".rs"), None);
}

#[test]
fn labels_from_entries_last_wins() {
    let labels = labels_from_entries(vec![
        ("rs".to_string(), "Rust".to_string()),
        ("rs".to_string(), "Rust 2021".to_string()),
        ("c".to_string(), "C".to_string()),
    ]);
    assert_eq!(label_for_extension(&labels, ".RS").as_deref(), Some("Rust 2021"));
    assert_eq!(label_for_extension(&labels, "c").as_deref(), Some("C"));
}
