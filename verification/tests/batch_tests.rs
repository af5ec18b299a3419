use locale_audit::exit_code;
use locale_audit::jsonio::object_keys_of_text;
use locale_audit::missing::missing_in_text;

#[test]
fn clean_run_exits_zero() {
    assert_eq!(exit_code(false, false), 0);
}

#[test]
fn findings_raise_the_exit_code_to_one() {
    assert_eq!(exit_code(false, true), 1);
}

#[test]
fn errors_dominate_findings() {
    assert_eq!(exit_code(true, false), 2);
    assert_eq!(exit_code(true, true), 2);
}

#[test]
fn object_keys_come_in_source_order() {
    let keys = object_keys_of_text("{\"zulu\": 1, \"alpha\": 2}").unwrap();
    assert_eq!(keys, vec!["zulu".to_string(), "alpha".to_string()]);
}

#[test]
fn repeated_keys_collapse_onto_their_first_position() {
    let keys = object_keys_of_text("{\"b\": 1, \"a\": 2, \"b\": 3}").unwrap();
    assert_eq!(keys, vec!["b".to_string(), "a".to_string()]);
}

#[test]
fn directory_scan_with_a_missing_target_and_a_bad_file() {
    // a directory holds the base, one target that lacks two keys, and one
    // file that cannot be processed; each is handled on its own and the
    // flags are folded into one exit code
    let base = object_keys_of_text("{\"a\": 1, \"b\": 2, \"c\": 3}").unwrap();
    let mut any_error = false;
    let mut any_finding = false;

    let target = missing_in_text(&base, "{\"b\": 2}").unwrap();
    assert_eq!(target, vec!["a".to_string(), "c".to_string()]);
    if !target.is_empty() {
        any_finding = true;
    }
    // a finding alone exits with one
    assert_eq!(exit_code(any_error, any_finding), 1);

    // an unreadable or malformed file in the same batch raises it to two
    if missing_in_text(&base, "{\"broken\": ").is_err() {
        any_error = true;
    }
    assert_eq!(exit_code(any_error, any_finding), 2);
}
