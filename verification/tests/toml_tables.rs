use changepacks::assign_preserving_decor::assign_preserving_decor;
use changepacks::ensure_toml_table_like::ensure_toml_table_like;
use toml_edit::DocumentMut;

fn doc(raw: &str) -> DocumentMut {
    raw.parse::<DocumentMut>().unwrap()
}

/// An end-of-line comment on the version line is stored as the VALUE's suffix
/// decor and must survive the rewrite.
#[test]
fn test_assign_preserving_decor_keeps_trailing_comment() {
    let mut manifest = doc("[package]\nversion = \"1.0.0\" # pinned\n");

    assign_preserving_decor(&mut manifest["package"]["version"], "2.0.0");

    assert_eq!(
        manifest.to_string(),
        "[package]\nversion = \"2.0.0\" # pinned\n"
    );
}

/// A slot that holds no value has no decor to carry, so the result is a plain
/// assignment with default spacing.
#[test]
fn test_assign_preserving_decor_handles_slot_without_value() {
    let mut manifest = doc("[package]\nname = \"x\"\n");
    assert!(
        manifest["package"].get("version").is_none(),
        "the fixture must not declare a version yet"
    );

    assign_preserving_decor(&mut manifest["package"]["version"], "0.0.1");

    assert_eq!(
        manifest.to_string(),
        "[package]\nname = \"x\"\nversion = \"0.0.1\"\n"
    );
}

/// Replacing a table-valued slot is likewise decor-free.
#[test]
fn test_assign_preserving_decor_replaces_table_slot() {
    let mut manifest = doc("[package]\n[package.version]\nworkspace = true\n");

    assign_preserving_decor(&mut manifest["package"]["version"], "1.2.3");

    assert_eq!(
        manifest["package"]["version"].as_str(),
        Some("1.2.3"),
        "a table slot must be replaced by the plain string value"
    );
}

/// Unusual spacing around `=` lives in the value's prefix decor and must not
/// be normalized away by a bump.
#[test]
fn test_assign_preserving_decor_keeps_unusual_spacing() {
    let mut manifest = doc("[package]\nversion =    \"1.0.0\"\n");

    assign_preserving_decor(&mut manifest["package"]["version"], "1.0.1");

    assert_eq!(manifest.to_string(), "[package]\nversion =    \"1.0.1\"\n");
}

/// A standard `[package]` header is table-like and present.
#[test]
fn test_ensure_toml_table_like_reports_present_table() {
    assert!(ensure_toml_table_like(
        &doc("[package]\nversion = \"1.0.0\"\n"),
        "Cargo.toml",
        "package",
        "Cargo.toml",
    )
    .unwrap());
}

/// An INLINE table (`project = { ... }`) is still table-like.
#[test]
fn test_ensure_toml_table_like_accepts_inline_table() {
    assert!(ensure_toml_table_like(
        &doc("project = { version = \"1.0.0\" }\n"),
        "pyproject.toml",
        "project",
        "pyproject.toml",
    )
    .unwrap());
}

/// A missing key is NOT an error: the caller creates the table itself.
#[test]
fn test_ensure_toml_table_like_reports_missing_key() {
    assert!(!ensure_toml_table_like(
        &doc("[build-system]\nrequires = []\n"),
        "pyproject.toml",
        "project",
        "pyproject.toml",
    )
    .unwrap());
}

#[test]
fn test_ensure_toml_table_like_error_names_label_path_and_key() {
    let manifest = "some/Cargo.toml";
    let err = ensure_toml_table_like(&doc("package = 3\n"), manifest, "package", "Cargo.toml")
        .expect_err("a scalar `package` must be rejected");

    assert_eq!(
        err.message(),
        format!("Cargo.toml {manifest} has a non-table [package] item")
    );
}

/// The same body serves the Python key/label pair unchanged.
#[test]
fn test_ensure_toml_table_like_error_uses_caller_key_and_label() {
    let manifest = "pyproject.toml";
    let err = ensure_toml_table_like(
        &doc("project = \"not-a-table\"\n"),
        manifest,
        "project",
        "pyproject.toml",
    )
    .expect_err("a scalar `project` must be rejected");

    assert_eq!(
        err.message(),
        format!("pyproject.toml {manifest} has a non-table [project] item")
    );
}

/// An ARRAY value (`package = [...]`) is still not table-like.
#[test]
fn test_ensure_toml_table_like_rejects_array_value() {
    let manifest = "some/Cargo.toml";
    let err = ensure_toml_table_like(
        &doc("package = [\"a\", \"b\"]\n"),
        manifest,
        "package",
        "Cargo.toml",
    )
    .expect_err("an array `package` must be rejected");

    assert_eq!(
        err.message(),
        format!("Cargo.toml {manifest} has a non-table [package] item")
    );
}

/// An ARRAY OF TABLES (a doubled `[[package]]` header) is not table-like even
/// though each element is a table.
#[test]
fn test_ensure_toml_table_like_rejects_array_of_tables() {
    let manifest = "some/pyproject.toml";
    let err = ensure_toml_table_like(
        &doc("[[project]]\nversion = \"1.0.0\"\n"),
        manifest,
        "project",
        "pyproject.toml",
    )
    .expect_err("an array-of-tables `project` must be rejected");

    assert_eq!(
        err.message(),
        format!("pyproject.toml {manifest} has a non-table [project] item")
    );
}
