use changepacks::bump_version_with::{bump_version_with, version_error_message, BumpError};
use changepacks::update_type::UpdateType;
use changepacks::version::{
    format_version_display, next_version, next_version_or_default, parse_number,
    replace_version_keep_prefix, requirement_admits, requirement_needs_rewrite, split_version,
};
use changepacks::whitespace::finalize_content;
use std::cell::RefCell;

#[test]
fn test_bump_version_with_writes_and_stores_new_version() {
    let mut version = Some("1.2.3".to_string());
    let written = RefCell::new(String::new());

    bump_version_with(
        &mut version,
        "/tmp/changepacks-utils/package.json",
        UpdateType::Minor,
        |new_version: &str| -> Result<(), String> {
            *written.borrow_mut() = new_version.to_string();
            Ok(())
        },
    )
    .unwrap();

    assert_eq!(version.as_deref(), Some("1.3.0"));
    assert_eq!(written.into_inner(), "1.3.0");
}

#[test]
fn test_bump_version_with_writer_error_leaves_version_untouched() {
    let mut version = Some(String::from("1.2.3"));

    let err = bump_version_with(
        &mut version,
        "/tmp/changepacks-utils/writer-fail/package.json",
        UpdateType::Minor,
        |_: &str| -> Result<(), String> { Err("boom".to_string()) },
    )
    .expect_err("writer failure must propagate");

    assert!(matches!(err, BumpError::Write(message) if message == "boom"));
    assert_eq!(
        version.as_deref(),
        Some("1.2.3"),
        "a failed write must leave the in-memory version untouched"
    );
}

#[test]
fn test_bump_version_with_bump_error_includes_path() {
    let path = "/nonexistent/utils-bump/package.json";
    let mut version = Some("abc".to_string());
    let err = bump_version_with(
        &mut version,
        path,
        UpdateType::Patch,
        |_: &str| -> Result<(), String> { Ok(()) },
    )
    .expect_err("malformed version must fail before writing");

    match err {
        BumpError::Version { path: named, invalid } => assert_eq!(
            version_error_message(&named, &invalid),
            format!("Failed to compute next version for {path}: Invalid version: abc")
        ),
        BumpError::Write(_) => panic!("nothing may be written"),
    }
}

#[test]
fn versions_move_by_the_bump() {
    assert_eq!(next_version("1.2.3", UpdateType::Patch).unwrap(), "1.2.4");
    assert_eq!(next_version("1.2.3", UpdateType::Minor).unwrap(), "1.3.0");
    assert_eq!(next_version("1.2.3", UpdateType::Major).unwrap(), "2.0.0");
    assert_eq!(next_version("1.2.3+7", UpdateType::Minor).unwrap(), "1.3.0+7");
    assert_eq!(next_version_or_default(None, UpdateType::Minor).unwrap(), "0.1.0");
    for malformed in ["", "1.2", "1.2.x", "1.2.3.4", "18446744073709551616.0.0"] {
        let error = next_version(malformed, UpdateType::Patch).unwrap_err();
        assert_eq!(error.message(), format!("Invalid version: {malformed}"));
    }
    assert!(next_version("1.2.18446744073709551615", UpdateType::Patch).is_err());
}

#[test]
fn numbers_are_digits_that_fit() {
    assert_eq!(parse_number("0"), Some(0));
    assert_eq!(parse_number("42"), Some(42));
    assert_eq!(parse_number(""), None);
    assert_eq!(parse_number("18446744073709551615"), Some(u64::MAX));
    assert_eq!(parse_number("18446744073709551616"), None);
}

#[test]
fn versions_are_shown_with_a_v() {
    assert_eq!(format_version_display(Some("1.0.0")), "v1.0.0");
    assert_eq!(format_version_display(None), "unknown");
}

#[test]
fn requirements_keep_their_prefix() {
    assert_eq!(replace_version_keep_prefix("^1.2.3", "2.0.0"), "^2.0.0");
    assert_eq!(replace_version_keep_prefix("~1.2.3", "2.0.0"), "~2.0.0");
    assert_eq!(replace_version_keep_prefix("1.2.3", "2.0.0"), "2.0.0");
    assert_eq!(
        split_version("=1.2.3"),
        ("=".to_string(), "1.2.3".to_string())
    );
}

#[test]
fn requirements_move_where_they_do_not_admit() {
    assert!(requirement_admits("0.2", "0.2.2"));
    assert!(requirement_admits("^1.2.3", "1.9.0"));
    assert!(!requirement_admits("^1.2.3", "2.0.0"));
    assert!(!requirement_admits("=0.2.1", "0.3.0"));
    assert!(requirement_admits("~1.2.3", "1.2.9"));
    assert!(!requirement_admits("~1.2.3", "1.3.0"));
    assert!(requirement_needs_rewrite("^0.2.1", "0.3.0"));
    assert!(!requirement_needs_rewrite("0.2", "0.2.2"));
}

#[test]
fn a_new_content_gets_the_old_trailing_whitespace() {
    assert_eq!(finalize_content("a\n", "b \t\r\n \n"), "a \t\r\n \n");
    assert_eq!(finalize_content("a\n\n", "b"), "a");
}

#[test]
fn a_version_that_cannot_move_is_not_written() {
    let mut version = Some("1.x.3".to_string());
    let error = bump_version_with(
        &mut version,
        "/repo/Cargo.toml",
        UpdateType::Major,
        |_: &str| -> Result<(), String> { panic!("nothing may be written") },
    )
    .unwrap_err();
    assert!(matches!(error, BumpError::Version { .. }));
    assert_eq!(version.as_deref(), Some("1.x.3"));
}
