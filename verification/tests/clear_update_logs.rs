use changepacks::clear_update_logs::{
    classify_log, clear_applied_update_logs, clear_update_logs, collect_changepack_log_paths,
    ClearError, DirEntry, LogAction, LogBody, Removal,
};

fn entry(name: &str) -> DirEntry {
    DirEntry {
        name: name.to_string(),
        is_file: true,
    }
}

fn applied(paths: &[&str]) -> Vec<String> {
    paths.iter().map(|path| path.to_string()).collect()
}

fn body(path: &str, content: &str) -> LogBody {
    LogBody {
        path: path.to_string(),
        content: content.to_string(),
    }
}

fn rewritten(input: &str, paths: &[&str]) -> String {
    match classify_log("/dir/changepack_log_1.json", input, &applied(paths)).unwrap() {
        LogAction::Rewrite(content) => content,
        action => panic!("expected a rewrite, got {action:?}"),
    }
}

fn assert_selective_clear_preserves_formatting(input: &str, expected: &str) {
    assert_eq!(rewritten(input, &["packages/a/package.json"]), expected);
}

fn assert_selective_clear_leaves_log_untouched(content: &str) {
    let action = classify_log(
        "/dir/changepack_log_1.json",
        content,
        &applied(&["packages/a/package.json"]),
    );
    assert!(matches!(action, Ok(LogAction::Keep)));
}

#[test]
fn test_clear_update_logs_empty_directory() {
    assert!(collect_changepack_log_paths("/dir", &vec![]).is_empty());
    assert!(clear_update_logs(&vec![]).is_ok());
}

#[test]
fn test_clear_update_logs_with_config_json_only() {
    assert!(collect_changepack_log_paths("/dir", &vec![entry("config.json")]).is_empty());
}

#[test]
fn test_clear_update_logs_with_update_logs() {
    let entries = vec![
        entry("config.json"),
        entry("changepack_log_1.json"),
        entry("changepack_log_2.json"),
        entry("changepack_log_3.json"),
    ];
    assert_eq!(
        collect_changepack_log_paths("/dir", &entries),
        vec![
            "/dir/changepack_log_1.json",
            "/dir/changepack_log_2.json",
            "/dir/changepack_log_3.json"
        ]
    );
}

#[test]
fn test_clear_update_logs_with_mixed_files() {
    let entries = vec![
        entry("config.json"),
        entry("2024-01-01.json"),
        entry("2024-01-02.json"),
        entry("update.json"),
        entry("log.json"),
    ];
    assert!(collect_changepack_log_paths("/dir", &entries).is_empty());
}

#[test]
fn test_clear_update_logs_preserves_non_json_files() {
    let entries = vec![
        entry(".gitkeep"),
        entry("README.md"),
        entry("changepack_log_1.txt"),
        entry("changepack_log_1.json"),
    ];
    assert_eq!(
        collect_changepack_log_paths("/dir", &entries),
        vec!["/dir/changepack_log_1.json"]
    );
}

#[test]
fn test_full_and_selective_cleanup_preserve_notes_json_bytes() {
    let entries = vec![
        entry("notes.json"),
        entry("changepack_log_full.json"),
        entry("changepack_log_selective.JSON"),
    ];
    assert_eq!(
        collect_changepack_log_paths("/dir", &entries),
        vec![
            "/dir/changepack_log_full.json",
            "/dir/changepack_log_selective.JSON"
        ]
    );
}

#[test]
fn test_clear_update_logs_ignores_json_directory() {
    let entries = vec![DirEntry {
        name: "changepack_log_directory.json".to_string(),
        is_file: false,
    }];
    assert!(collect_changepack_log_paths("/dir", &entries).is_empty());
}

#[test]
fn clear_update_logs_aggregates_multiple_removal_failures() {
    let removals = vec![
        Removal {
            path: "/dir/changepack_log_a.json".to_string(),
            error: Some("denied".to_string()),
        },
        Removal {
            path: "/dir/changepack_log_gone.json".to_string(),
            error: None,
        },
        Removal {
            path: "/dir/changepack_log_b.json".to_string(),
            error: Some("locked".to_string()),
        },
    ];
    let message = clear_update_logs(&removals)
        .expect_err("undeletable update logs must not report success");
    assert_eq!(
        message,
        "Failed to remove 2 update log(s): /dir/changepack_log_a.json: denied; \
         /dir/changepack_log_b.json: locked"
    );
}

#[test]
fn test_clear_applied_update_logs_deletes_fully_applied_log() {
    let logs = vec![body(
        "/dir/changepack_log_1.json",
        r#"{"changes":{"packages/a/package.json":"Patch"},"note":"done","date":"2026-01-01"}"#,
    )];
    let plan = clear_applied_update_logs(&logs, &applied(&["packages/a/package.json"])).unwrap();
    assert_eq!(plan.removals, vec!["/dir/changepack_log_1.json"]);
    assert!(plan.rewrites.is_empty());
}

#[test]
fn clear_applied_update_logs_skips_untouched_readonly_log() {
    let logs = vec![
        body(
            "/dir/changepack_log_applied.json",
            r#"{"changes":{"packages/a/package.json":"Patch"},"note":"done"}"#,
        ),
        body(
            "/dir/changepack_log_untouched.json",
            "{\n  \"changes\": {\"packages/b/package.json\": \"Minor\"},\n  \"note\": \"keep byte-for-byte\"\n}\n",
        ),
    ];
    let plan = clear_applied_update_logs(&logs, &applied(&["packages/a/package.json"])).unwrap();
    assert_eq!(plan.removals, vec!["/dir/changepack_log_applied.json"]);
    assert!(plan.rewrites.is_empty());
}

#[test]
fn test_clear_applied_update_logs_rewrites_mixed_log_preserving_metadata() {
    let content = rewritten(
        r#"{"changes":{"packages/a/package.json":"Patch","packages/b/package.json":"Minor"},"note":"keep this","date":"2026-01-01"}"#,
        &["packages/a/package.json"],
    );
    let value: serde_json::Value = serde_json::from_str(&content).unwrap();
    assert_eq!(value["changes"].as_object().unwrap().len(), 1);
    assert_eq!(value["changes"]["packages/b/package.json"], "Minor");
    assert!(value["changes"].get("packages/a/package.json").is_none());
    assert_eq!(value["note"], "keep this");
    assert_eq!(value["date"], "2026-01-01");
}

#[test]
fn clear_applied_update_logs_deletes_and_rewrites_in_one_call() {
    let logs = vec![
        body(
            "/dir/changepack_log_full.json",
            r#"{"changes":{"packages/x/package.json":"Major","packages/y/package.json":"Patch"},"note":"fully applied","date":"2026-01-02"}"#,
        ),
        body(
            "/dir/changepack_log_straddling.json",
            "{\n  \"changes\": {\n    \"packages/a/package.json\": \"Patch\",\n    \"packages/b/package.json\": \"Minor\"\n  },\n  \"note\": \"keep this\",\n  \"date\": \"2026-01-01\"\n}\n",
        ),
    ];
    let plan = clear_applied_update_logs(
        &logs,
        &applied(&[
            "packages/x/package.json",
            "packages/y/package.json",
            "packages/a/package.json",
        ]),
    )
    .unwrap();
    assert_eq!(plan.removals, vec!["/dir/changepack_log_full.json"]);
    assert_eq!(plan.rewrites.len(), 1);
    assert_eq!(plan.rewrites[0].path, "/dir/changepack_log_straddling.json");
    assert_eq!(
        plan.rewrites[0].content,
        "{\n  \"changes\": {\n    \"packages/b/package.json\": \"Minor\"\n  },\n  \"note\": \"keep this\",\n  \"date\": \"2026-01-01\"\n}\n"
    );
}

#[test]
fn clear_applied_update_logs_reports_parse_failure_with_path() {
    let logs = vec![body(
        "/dir/changepack_log_broken.json",
        r#"{"changes":{"packages/a/package.json":"#,
    )];
    let error = clear_applied_update_logs(&logs, &applied(&["packages/a/package.json"]))
        .expect_err("a malformed changepack log must not be reported as success");
    assert!(matches!(error, ClearError::Unparsable { .. }));
    assert!(error
        .message()
        .starts_with("Failed to parse update log /dir/changepack_log_broken.json: "));
}

#[test]
fn a_rewrite_that_the_scanner_refuses_names_the_log() {
    let error = ClearError::Unwritable {
        path: "/dir/changepack_log_1.json".to_string(),
        error: changepacks::applied_change_spans::SpanError::MissingChanges,
    };
    assert_eq!(
        error.message(),
        "Failed to rewrite update log /dir/changepack_log_1.json: parsed update log is missing its changes object"
    );
}

#[test]
fn a_log_without_changes_left_is_removed() {
    let action = classify_log("/dir/changepack_log_1.json", r#"{"changes":{}}"#, &applied(&[]));
    assert!(matches!(action, Ok(LogAction::Remove)));
}

#[test]
fn clear_applied_update_logs_leaves_log_without_changes_key_untouched() {
    assert_selective_clear_leaves_log_untouched(
        "{\n  \"note\": \"hand written\",\n  \"date\": \"2026-01-01\"\n}\n",
    );
}

#[test]
fn clear_applied_update_logs_leaves_log_with_non_object_changes_untouched() {
    assert_selective_clear_leaves_log_untouched(
        "{\n  \"changes\": [],\n  \"note\": \"array schema\",\n  \"date\": \"2026-01-01\"\n}\n",
    );
}

#[test]
fn clear_applied_update_logs_preserves_key_order() {
    let content = rewritten(
        r#"{"changes":{"packages/a/package.json":"Patch","packages/b/package.json":"Minor"},"note":"test note","date":"2026-01-01"}"#,
        &["packages/a/package.json"],
    );
    let note_pos = content.find("\"note\"").expect("\"note\" key should exist");
    let date_pos = content.find("\"date\"").expect("\"date\" key should exist");
    assert!(note_pos < date_pos);
}

#[test]
fn clear_applied_update_logs_preserves_tab_indentation() {
    let input = "{\n\t\"changes\": {\n\t\t\"packages/a/package.json\": \"Patch\",\n\t\t\"packages/b/package.json\": \"Minor\"\n\t},\n\t\"note\": \"keep\"\n}";
    let expected = "{\n\t\"changes\": {\n\t\t\"packages/b/package.json\": \"Minor\"\n\t},\n\t\"note\": \"keep\"\n}";

    assert_selective_clear_preserves_formatting(input, expected);
}

#[test]
fn clear_applied_update_logs_preserves_four_space_indentation() {
    let input = "{\n    \"changes\": {\n        \"packages/a/package.json\": \"Patch\",\n        \"packages/b/package.json\": \"Minor\"\n    },\n    \"note\": \"keep\"\n}";
    let expected = "{\n    \"changes\": {\n        \"packages/b/package.json\": \"Minor\"\n    },\n    \"note\": \"keep\"\n}";

    assert_selective_clear_preserves_formatting(input, expected);
}

#[test]
fn clear_applied_update_logs_preserves_final_newline() {
    let input = "{\n  \"changes\": {\n    \"packages/a/package.json\": \"Patch\",\n    \"packages/b/package.json\": \"Minor\"\n  },\n  \"note\": \"keep\"\n}\n";
    let expected = "{\n  \"changes\": {\n    \"packages/b/package.json\": \"Minor\"\n  },\n  \"note\": \"keep\"\n}\n";

    assert_selective_clear_preserves_formatting(input, expected);
}

#[test]
fn clear_applied_update_logs_preserves_no_final_newline() {
    let input = "{\n  \"changes\": {\n    \"packages/a/package.json\": \"Patch\",\n    \"packages/b/package.json\": \"Minor\"\n  },\n  \"note\": \"keep\"\n}";
    let expected = "{\n  \"changes\": {\n    \"packages/b/package.json\": \"Minor\"\n  },\n  \"note\": \"keep\"\n}";

    assert_selective_clear_preserves_formatting(input, expected);
}

#[test]
fn clear_applied_update_logs_preserves_compact_json_bytes() {
    let input = r#"{"changes":{"packages/a/package.json":"Patch","packages/b/package.json":"Minor, \"quoted\""},"note":"keep"}"#;
    let expected = r#"{"changes":{"packages/b/package.json":"Minor, \"quoted\""},"note":"keep"}"#;

    assert_selective_clear_preserves_formatting(input, expected);
}

#[test]
fn clear_applied_update_logs_preserves_irregular_json_bytes() {
    let input = "{\n \"changes\" : {  \"packages/a/package.json\" : \"Patch\" ,\t\"packages/b/package.json\": [1,{\"text\":\"comma, and \\\"quote\\\"\"}]   }, \"note\"  :true\n}\n";
    let expected = "{\n \"changes\" : {\t\"packages/b/package.json\": [1,{\"text\":\"comma, and \\\"quote\\\"\"}]   }, \"note\"  :true\n}\n";

    assert_selective_clear_preserves_formatting(input, expected);
}

#[test]
fn clear_applied_update_logs_removes_multiple_selected_entries() {
    let input = r#"{"changes":{"packages/a/package.json":"Patch, one","packages/c/package.json":"Major, two","packages/b/package.json":"Minor, \"keep\""},"note":"keep"}"#;
    let expected = r#"{"changes":{"packages/b/package.json":"Minor, \"keep\""},"note":"keep"}"#;

    assert_eq!(
        rewritten(input, &["packages/a/package.json", "packages/c/package.json"]),
        expected
    );
}
