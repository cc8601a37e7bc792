use changepacks::ensure_declared_shape::ensure_declared_shape;

/// An absent field is NOT an error: the caller falls back to its sibling
/// marker file (`pnpm-workspace.yaml`, `melos.yaml`) or to "plain package".
#[test]
fn test_absent_declaration_is_not_declared() {
    assert!(
        !ensure_declared_shape(None, "package.json", "workspaces", "an array or object").unwrap()
    );
}

/// A well-shaped field short-circuits the caller straight to "workspace".
#[test]
fn test_valid_declaration_is_declared() {
    assert!(
        ensure_declared_shape(Some(true), "package.json", "workspaces", "an array or object")
            .unwrap()
    );
}

#[test]
fn test_invalid_declaration_message_matches_node_template() {
    let manifest = "some/package.json";
    let err = ensure_declared_shape(Some(false), manifest, "workspaces", "an array or object")
        .expect_err("a wrongly-shaped `workspaces` field must be rejected");

    assert_eq!(
        err.message(),
        format!("Invalid `workspaces` declaration in {manifest}: expected an array or object")
    );
}

/// The Dart field/expectation pair reuses the same body unchanged.
#[test]
fn test_invalid_declaration_message_matches_dart_template() {
    let manifest = "some/pubspec.yaml";
    let err = ensure_declared_shape(Some(false), manifest, "workspace", "a sequence")
        .expect_err("a wrongly-shaped `workspace` field must be rejected");

    assert_eq!(
        err.message(),
        format!("Invalid `workspace` declaration in {manifest}: expected a sequence")
    );
}

/// The Python field name is a dotted TOML path, and it is interpolated
/// verbatim inside the backticks, without escaping or re-quoting.
#[test]
fn test_invalid_declaration_message_matches_python_template() {
    let manifest = "some/pyproject.toml";
    let err = ensure_declared_shape(
        Some(false),
        manifest,
        "[tool.uv].workspace",
        "a table or inline table",
    )
    .expect_err("a wrongly-shaped `[tool.uv].workspace` field must be rejected");

    assert_eq!(
        err.message(),
        format!(
            "Invalid `[tool.uv].workspace` declaration in {manifest}: expected a table or inline table"
        )
    );
}
