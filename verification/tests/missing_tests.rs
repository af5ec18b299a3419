use locale_audit::jsonio::ParseError;
use locale_audit::missing::{missing_export_text, missing_in_text, missing_keys};

#[test]
fn base_a_b_c_against_target_a_c_reports_exactly_b() {
    let base = vec!["a".to_string(), "b".to_string(), "c".to_string()];
    let target = vec!["a".to_string(), "c".to_string()];
    assert_eq!(missing_keys(&base, &target), vec!["b".to_string()]);
}

#[test]
fn missing_keys_keep_base_order() {
    let base = vec!["z".to_string(), "b".to_string(), "a".to_string()];
    let target: Vec<String> = Vec::new();
    assert_eq!(
        missing_keys(&base, &target),
        vec!["z".to_string(), "b".to_string(), "a".to_string()]
    );
}

#[test]
fn nothing_missing_when_target_covers_base() {
    let base = vec!["a".to_string(), "b".to_string()];
    let target = vec!["b".to_string(), "a".to_string(), "extra".to_string()];
    assert!(missing_keys(&base, &target).is_empty());
}

#[test]
fn missing_in_text_reads_target_keys() {
    let base = vec!["a".to_string(), "b".to_string(), "c".to_string()];
    let missing = missing_in_text(&base, "{\"a\": 1, \"c\": 3}").unwrap();
    assert_eq!(missing, vec!["b".to_string()]);
}

#[test]
fn malformed_target_is_a_syntax_error() {
    let base = vec!["a".to_string()];
    let err = missing_in_text(&base, "{\"a\": ").unwrap_err();
    assert!(matches!(err, ParseError::Syntax(_)));
}

#[test]
fn non_object_target_is_its_own_error() {
    let base = vec!["a".to_string()];
    let err = missing_in_text(&base, "[1, 2]").unwrap_err();
    assert!(matches!(err, ParseError::NotObject));
}

#[test]
fn export_text_is_a_pretty_json_array() {
    let missing = vec!["b".to_string()];
    assert_eq!(missing_export_text(&missing), "[\n  \"b\"\n]");
    let two = vec!["x".to_string(), "y".to_string()];
    assert_eq!(missing_export_text(&two), "[\n  \"x\",\n  \"y\"\n]");
}
