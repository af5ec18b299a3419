use locale_audit::dups::{duplicate_report, find_duplicates_in_text};

#[test]
fn key_occurring_three_times_is_reported_with_count_three() {
    let text = "{\"a\": 1, \"a\": 2, \"b\": 3, \"a\": 4}";
    let report = find_duplicates_in_text(text).unwrap();
    assert_eq!(report, vec![("a".to_string(), 3usize)]);
}

#[test]
fn clean_valid_object_reports_nothing() {
    let text = "{\"a\": 1, \"b\": 2}";
    let report = find_duplicates_in_text(text).unwrap();
    assert!(report.is_empty());
}

#[test]
fn clean_but_malformed_text_is_an_error() {
    let text = "{\"a\": 1,}";
    let err = find_duplicates_in_text(text).unwrap_err();
    assert!(err.starts_with("invalid JSON: "));
}

#[test]
fn duplicates_skip_further_validation() {
    // malformed tail, but the duplicate finding is still reported
    let text = "{\"a\": 1, \"a\": 2,}";
    let report = find_duplicates_in_text(text).unwrap();
    assert_eq!(report, vec![("a".to_string(), 2usize)]);
}

#[test]
fn report_orders_keys_by_first_appearance() {
    let keys = vec![
        "b".to_string(),
        "a".to_string(),
        "b".to_string(),
        "a".to_string(),
        "c".to_string(),
    ];
    let report = duplicate_report(&keys);
    assert_eq!(
        report,
        vec![("b".to_string(), 2usize), ("a".to_string(), 2usize)]
    );
}

#[test]
fn unique_keys_give_an_empty_report() {
    let keys = vec!["a".to_string(), "b".to_string(), "c".to_string()];
    assert!(duplicate_report(&keys).is_empty());
}

#[test]
fn nested_duplicates_are_not_top_level_findings() {
    let text = "{\"a\": {\"x\": 1, \"x\": 2}}";
    let report = find_duplicates_in_text(text).unwrap();
    assert!(report.is_empty());
}

#[test]
fn valid_non_object_root_passes_validation() {
    // no duplicates found and the text is well-formed JSON, so the scan is clean
    let report = find_duplicates_in_text("[1, 2, 3]").unwrap();
    assert!(report.is_empty());
}
