use locale_audit::scan::extract_top_level_keys;

#[test]
fn plain_object_keys_in_order() {
    let keys = extract_top_level_keys("{\"a\": 1, \"b\": 2, \"c\": 3}");
    assert_eq!(keys, vec!["a".to_string(), "b".to_string(), "c".to_string()]);
}

#[test]
fn nested_keys_are_not_top_level() {
    let keys = extract_top_level_keys("{\"a\": {\"inner\": 1, \"deep\": {\"x\": 2}}, \"b\": 2}");
    assert_eq!(keys, vec!["a".to_string(), "b".to_string()]);
}

#[test]
fn duplicate_occurrences_are_kept() {
    let keys = extract_top_level_keys("{\"a\": 1, \"a\": 2, \"b\": 3, \"a\": 4}");
    assert_eq!(
        keys,
        vec![
            "a".to_string(),
            "a".to_string(),
            "b".to_string(),
            "a".to_string()
        ]
    );
}

#[test]
fn escaped_quote_in_key() {
    let keys = extract_top_level_keys("{\"a\\\"b\": 1}");
    assert_eq!(keys, vec!["a\"b".to_string()]);
}

#[test]
fn whitespace_before_colon_still_a_key() {
    let keys = extract_top_level_keys("{\"a\" \t\r\n : 1}");
    assert_eq!(keys, vec!["a".to_string()]);
}

#[test]
fn string_values_are_not_keys() {
    let keys = extract_top_level_keys("{\"a\": \"x:{y}\", \"b\": [\"s\", \"t\"]}");
    assert_eq!(keys, vec!["a".to_string(), "b".to_string()]);
}

#[test]
fn non_object_text_has_no_keys() {
    assert_eq!(extract_top_level_keys("[1, 2, 3]"), Vec::<String>::new());
    assert_eq!(extract_top_level_keys("42"), Vec::<String>::new());
    assert_eq!(extract_top_level_keys(""), Vec::<String>::new());
}

#[test]
fn empty_object_has_no_keys() {
    assert_eq!(extract_top_level_keys("{}"), Vec::<String>::new());
}

#[test]
fn unterminated_string_ends_scan() {
    assert_eq!(extract_top_level_keys("{\"a"), Vec::<String>::new());
}

#[test]
fn unicode_key_is_read_whole() {
    let keys = extract_top_level_keys("{\"caf\u{e9}\": 1}");
    assert_eq!(keys, vec!["caf\u{e9}".to_string()]);
}
