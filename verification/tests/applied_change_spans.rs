use changepacks::applied_change_spans::{
    parse_json_object_members, remove_applied_change_spans, scan_json_string_end,
    scan_json_value_end, skip_json_whitespace,
    SpanError,
};

fn scanner_error(content: &str) -> String {
    let applied_paths = vec!["packages/a/package.json".to_string()];
    let error = remove_applied_change_spans(content, &applied_paths)
        .expect_err("malformed JSON must be rejected instead of rewritten");
    error.message()
}

fn without(content: &str, applied: &[&str]) -> String {
    let applied_paths: Vec<String> = applied.iter().map(|path| path.to_string()).collect();
    remove_applied_change_spans(content, &applied_paths).unwrap()
}

#[test]
fn remove_applied_change_spans_rejects_non_object_root() {
    assert_eq!(
        scanner_error(r#"["packages/a/package.json"]"#),
        "expected JSON object at byte 0"
    );
}

#[test]
fn remove_applied_change_spans_rejects_unterminated_root_object() {
    // The root brace opens and input ends, so the member loop asks for a
    // key that is not there.
    assert_eq!(scanner_error("{"), "expected JSON string at byte 1");
}

#[test]
fn remove_applied_change_spans_rejects_unquoted_member_key() {
    assert_eq!(
        scanner_error("{changes: {}}"),
        "expected JSON string at byte 1"
    );
}

#[test]
fn remove_applied_change_spans_rejects_unterminated_string_key() {
    assert_eq!(
        scanner_error(r#"{"changes"#),
        "unterminated JSON string at byte 1"
    );
}

#[test]
fn remove_applied_change_spans_rejects_invalid_escape_in_key() {
    // The scan skips the escape pair, then the decoder rejects it.
    let error = scanner_error(r#"{"\q":1}"#);
    assert!(
        error.contains("invalid escape"),
        "unexpected error text: {error}"
    );
}

#[test]
fn remove_applied_change_spans_rejects_missing_colon_after_key() {
    assert_eq!(
        scanner_error(r#"{"changes" 1}"#),
        "expected ':' after JSON object key at byte 11"
    );
}

#[test]
fn remove_applied_change_spans_rejects_missing_member_separator() {
    assert_eq!(
        scanner_error(r#"{"changes":{} "note":1}"#),
        "expected ',' or '}' after JSON object member at byte 14"
    );
}

#[test]
fn remove_applied_change_spans_rejects_value_at_end_of_input() {
    assert_eq!(
        scanner_error(r#"{"changes":"#),
        "expected JSON value at end of input"
    );
}

#[test]
fn remove_applied_change_spans_rejects_unterminated_nested_value() {
    assert_eq!(
        scanner_error(r#"{"changes":[1,2"#),
        "unterminated JSON value at byte 11"
    );
}

#[test]
fn remove_applied_change_spans_rejects_mismatched_closing_delimiter() {
    assert_eq!(
        scanner_error(r#"{"changes":[1,2}"#),
        "mismatched JSON closing delimiter at byte 15"
    );
}

#[test]
fn remove_applied_change_spans_rejects_root_without_changes_member() {
    assert_eq!(
        scanner_error(r#"{"note":"hand written","date":"2026-01-01"}"#),
        "parsed update log is missing its changes object"
    );
}

#[test]
fn remove_applied_change_spans_rejects_non_object_changes_value() {
    assert_eq!(
        scanner_error(r#"{"changes":[],"note":"array schema"}"#),
        "expected JSON object at byte 11"
    );
}

#[test]
fn applied_members_go_and_the_rest_keeps_its_bytes() {
    let log = "{\n  \"changes\": {\n    \"a\": \"Patch\",\n    \"b\": \"Minor\",\n    \"c\": \"Major\"\n  },\n  \"note\": \"kept\"\n}\n";
    assert_eq!(
        without(log, &["a"]),
        "{\n  \"changes\": {\n    \"b\": \"Minor\",\n    \"c\": \"Major\"\n  },\n  \"note\": \"kept\"\n}\n"
    );
    assert_eq!(
        without(log, &["b"]),
        "{\n  \"changes\": {\n    \"a\": \"Patch\",\n    \"c\": \"Major\"\n  },\n  \"note\": \"kept\"\n}\n"
    );
    assert_eq!(
        without(log, &["c", "b"]),
        "{\n  \"changes\": {\n    \"a\": \"Patch\"\n  },\n  \"note\": \"kept\"\n}\n"
    );
    assert_eq!(
        without(log, &["a", "b", "c"]),
        "{\n  \"changes\": {\n  },\n  \"note\": \"kept\"\n}\n"
    );
}

#[test]
fn a_log_without_applied_members_is_unchanged() {
    let log = "{\"changes\": {\"a\" : \"Patch\" , \"b\":[1, {\"c\":\"}\"}]}, \"note\": \"é\"}";
    assert_eq!(without(log, &["elsewhere"]), log);
}

#[test]
fn the_last_changes_member_counts_and_keys_are_decoded() {
    assert_eq!(
        without(r#"{"changes":{"a":1},"changes":{"a":1,"b":2}}"#, &["a"]),
        r#"{"changes":{"a":1},"changes":{"b":2}}"#
    );
}

#[test]
fn scans_report_positions() {
    assert_eq!(skip_json_whitespace(b" \t\r\n x", 0), 5);
    assert_eq!(scan_json_string_end(br#""a\"b" "#, 0).unwrap(), 6);
    assert_eq!(scan_json_value_end(b" [1, {\"a\": \"]\"}] ", 0).unwrap(), 16);
    assert_eq!(scan_json_value_end(b"true}", 0).unwrap(), 4);
    assert!(matches!(
        scan_json_string_end(b"x", 0),
        Err(SpanError::ExpectedString(0))
    ));
}

#[test]
fn a_rewritten_log_can_be_scanned_and_rewritten_again() {
    let log = r#"{"note":"n","changes":{"a":"Patch","b":{"c":"}"},"d":[1]},"date":1}"#;
    let once = without(log, &["a", "d"]);
    assert_eq!(once, r#"{"note":"n","changes":{"b":{"c":"}"}},"date":1}"#);
    let open = once.find(r#"{"b""#).unwrap();
    let left = parse_json_object_members(&once, open).unwrap();
    assert_eq!(left.len(), 1);
    assert_eq!(left[0].key, "b");
    assert_eq!(
        &once[left[0].value_start..left[0].value_end],
        r#"{"c":"}"}"#
    );
    let root = parse_json_object_members(&once, 0).unwrap();
    let keys: Vec<&str> = root.iter().map(|member| member.key.as_str()).collect();
    assert_eq!(keys, vec!["note", "changes", "date"]);
    assert_eq!(without(&once, &["a", "d"]), once);
    assert_eq!(
        without(&once, &["b"]),
        r#"{"note":"n","changes":{},"date":1}"#
    );
}
