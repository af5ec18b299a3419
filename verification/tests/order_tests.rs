use locale_audit::jsonio::ParseError;
use locale_audit::order::sort_text;
use locale_audit::scan::extract_top_level_keys;

fn base_abc() -> Vec<String> {
    vec!["a".to_string(), "b".to_string(), "c".to_string()]
}

#[test]
fn sort_against_a_b_c_yields_a_c_x() {
    let sorted = sort_text(&base_abc(), "{\"c\": 1, \"a\": 2, \"x\": 3}").unwrap();
    assert_eq!(
        extract_top_level_keys(&sorted),
        vec!["a".to_string(), "c".to_string(), "x".to_string()]
    );
    // values ride along with their keys
    assert_eq!(sorted, "{\n  \"a\": 2,\n  \"c\": 1,\n  \"x\": 3\n}");
}

#[test]
fn sorting_twice_changes_nothing() {
    let once = sort_text(&base_abc(), "{\"c\": 1, \"a\": 2, \"x\": 3}").unwrap();
    let twice = sort_text(&base_abc(), &once).unwrap();
    assert_eq!(once, twice);
}

#[test]
fn extras_come_in_ascending_lexicographic_order() {
    let base: Vec<String> = Vec::new();
    let sorted = sort_text(&base, "{\"delta\": 4, \"alpha\": 1, \"charlie\": 3}").unwrap();
    assert_eq!(
        extract_top_level_keys(&sorted),
        vec![
            "alpha".to_string(),
            "charlie".to_string(),
            "delta".to_string()
        ]
    );
}

#[test]
fn base_keys_the_target_lacks_are_omitted() {
    let sorted = sort_text(&base_abc(), "{\"b\": 9}").unwrap();
    assert_eq!(extract_top_level_keys(&sorted), vec!["b".to_string()]);
    assert_eq!(sorted, "{\n  \"b\": 9\n}");
}

#[test]
fn values_survive_the_round_trip() {
    let sorted = sort_text(
        &base_abc(),
        "{\"c\": {\"nested\": [1, 2]}, \"a\": \"text\", \"x\": true}",
    )
    .unwrap();
    let reread: serde_json::Value = serde_json::from_str(&sorted).unwrap();
    let obj = match reread {
        serde_json::Value::Object(m) => m,
        _ => panic!("sorted output must be an object"),
    };
    assert_eq!(obj["a"], serde_json::Value::String("text".to_string()));
    assert_eq!(obj["x"], serde_json::Value::Bool(true));
    let nested = match &obj["c"] {
        serde_json::Value::Object(m) => m,
        _ => panic!("nested value must stay an object"),
    };
    assert!(nested.contains_key("nested"));
}

#[test]
fn repeated_raw_keys_collapse_before_sorting() {
    // a structural parse keeps one entry per key: first position, last value
    let sorted = sort_text(&base_abc(), "{\"b\": 1, \"b\": 2}").unwrap();
    assert_eq!(sorted, "{\n  \"b\": 2\n}");
}

#[test]
fn malformed_sort_target_is_a_syntax_error() {
    let err = sort_text(&base_abc(), "{\"a\": ").unwrap_err();
    assert!(matches!(err, ParseError::Syntax(_)));
}

#[test]
fn non_object_sort_target_is_its_own_error() {
    let err = sort_text(&base_abc(), "\"just a string\"").unwrap_err();
    assert!(matches!(err, ParseError::NotObject));
}
