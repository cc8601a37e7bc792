use changepacks::detect_indent::detect_indent_str;
use changepacks::display_project::{display_project, project_line};
use changepacks::display_update::display_update;
use changepacks::get_changepack_dir::get_changepack_dir;
use changepacks::package::RustPackage;
use changepacks::project::Project;
use changepacks::update_type::UpdateType;
use changepacks::workspace::RustWorkspace;

#[test]
fn test_display_update() {
    for (current_version, update_type, expected) in [
        (Some("1.0.0"), UpdateType::Major, "v1.0.0 → v2.0.0"),
        (Some("1.0.0"), UpdateType::Minor, "v1.0.0 → v1.1.0"),
        (Some("1.0.0"), UpdateType::Patch, "v1.0.0 → v1.0.1"),
        (Some("2.5.3"), UpdateType::Major, "v2.5.3 → v3.0.0"),
        (Some("2.5.3"), UpdateType::Minor, "v2.5.3 → v2.6.0"),
        (Some("2.5.3"), UpdateType::Patch, "v2.5.3 → v2.5.4"),
        (Some("0.1.0"), UpdateType::Major, "v0.1.0 → v1.0.0"),
        (Some("10.20.30"), UpdateType::Major, "v10.20.30 → v11.0.0"),
        (Some("10.20.30"), UpdateType::Minor, "v10.20.30 → v10.21.0"),
        (Some("10.20.30"), UpdateType::Patch, "v10.20.30 → v10.20.31"),
        (
            Some("10.20.30+1"),
            UpdateType::Patch,
            "v10.20.30+1 → v10.20.31+1",
        ),
        (None, UpdateType::Major, "unknown → v1.0.0"),
        (None, UpdateType::Minor, "unknown → v0.1.0"),
        (None, UpdateType::Patch, "unknown → v0.0.1"),
    ] {
        assert_eq!(display_update(current_version, update_type).unwrap(), expected);
    }
}

#[test]
fn test_display_update_rejects_malformed_version() {
    let error = display_update(Some("abc"), UpdateType::Patch)
        .expect_err("a non-semver current version must not render a preview");
    let chain = error.message();
    assert!(
        chain.contains("abc"),
        "error chain must name the offending version, got: {chain}"
    );
}

#[test]
fn test_detect_indent_str() {
    for (content, expected) in [
        ("    print('Hello, world!');", "    "),
        ("{\n  \"foo\": \"bar\"}", "  "),
        ("{\n    \"foo\": \"bar\"}", "    "),
        ("\tconsole.log('test');", "\t"),
        ("noindent", ""),
        ("", ""),
        ("           ", ""),
        ("{\n\t\"key\": \"value\"\n}", "\t"),
        ("{\n   \"key\": \"value\"\n}", "   "),
        ("\t\tdeep\n\tshallow", "\t\t"),
        ("\n    indented\n   less\n", "    "),
        ("{\n\n\n  \"after_blanks\": true\n}", "  "),
        ("{\r\n  \"key\": \"value\"\r\n}\r\n", "  "),
        ("{\r\n\t\"key\": \"value\"\r\n}\r\n", "\t"),
        ("{\r\n\r\n    \"key\": \"value\"\r\n}\r\n", "    "),
        ("{\r  \"key\": \"value\"\r}\r", "  "),
        ("{\r\t\"key\": \"value\"\r}\r", "\t"),
        ("{\r\r    \"key\": \"value\"\r}\r", "    "),
        ("{\n \t\"key\": \"value\"\n}", " \t"),
        ("{\n\t \"key\": \"value\"\n}", "\t "),
        ("{\n\u{a0}é\n}", "\u{a0}"),
    ] {
        assert_eq!(detect_indent_str(content), expected, "{content:?}");
    }
}

fn workspace(version: Option<&str>) -> Project {
    Project::Workspace(RustWorkspace::new(
        None,
        version.map(str::to_string),
        "/repo/Cargo.toml".to_string(),
        "Cargo.toml".to_string(),
    ))
}

fn package() -> Project {
    Project::Package(RustPackage::new(
        Some("core".to_string()),
        Some("1.2.3".to_string()),
        "/repo/crates/core/Cargo.toml".to_string(),
        "crates/core/Cargo.toml".to_string(),
    ))
}

#[test]
fn the_line_of_a_workspace_shows_where_an_update_leads() {
    let line = project_line(&workspace(Some("1.0.0")), "/repo", Some(UpdateType::Minor)).unwrap();
    assert_eq!(line.heading, "[Workspace - Rust]");
    assert_eq!(line.name, "unknown");
    assert_eq!(line.version, "(v1.0.0 → v1.1.0)");
    assert_eq!(line.relative_path, "Cargo.toml");
    let line = project_line(&workspace(None), "/repo", Some(UpdateType::Patch)).unwrap();
    assert_eq!(line.version, "(unknown → v0.0.1)");
}

#[test]
fn the_line_of_a_package_shows_its_version() {
    let line = project_line(&package(), "/repo", Some(UpdateType::Minor)).unwrap();
    assert_eq!(line.heading, "[Rust]");
    assert_eq!(line.name, "core");
    assert_eq!(line.version, "(v1.2.3)");
    assert_eq!(line.relative_path, "crates/core/Cargo.toml");
}

#[test]
fn a_painted_line_holds_its_parts_in_order() {
    colored::control::set_override(true);
    let shown = display_project(&package(), "/repo", None).unwrap();
    assert_eq!(
        shown,
        "\u{1b}[1;94m[Rust]\u{1b}[0m \u{1b}[1;97mcore\u{1b}[0m \u{1b}[92m(v1.2.3)\u{1b}[0m \
         \u{1b}[96m-\u{1b}[0m \u{1b}[90mcrates/core/Cargo.toml\u{1b}[0m"
    );
    colored::control::set_override(false);
    let shown = display_project(&package(), "/repo", None).unwrap();
    assert_eq!(shown, "[Rust] core (v1.2.3) - crates/core/Cargo.toml");
}

#[test]
fn projects_that_cannot_be_shown_say_why() {
    let error = project_line(&package(), "/elsewhere", None).unwrap_err();
    assert_eq!(
        error.message(),
        "Project /repo/crates/core/Cargo.toml is outside the repository"
    );
    let error = project_line(&workspace(Some("abc")), "/repo", Some(UpdateType::Patch)).unwrap_err();
    assert_eq!(error.message(), "Invalid version: abc");
}

#[test]
fn the_changepack_dir_lies_in_the_worktree() {
    assert_eq!(get_changepack_dir(Some("/repo")).unwrap(), "/repo/.changepack");
    assert_eq!(
        get_changepack_dir(None).unwrap_err(),
        "Failed to find current git repository"
    );
}

#[test]
fn a_reset_in_a_text_does_not_end_its_color() {
    let project = Project::Package(RustPackage::new(
        Some("co\u{1b}[0mre".to_string()),
        Some("1.2.3".to_string()),
        "/repo/Cargo.toml".to_string(),
        "Cargo.toml".to_string(),
    ));
    colored::control::set_override(true);
    let shown = display_project(&project, "/repo", None).unwrap();
    assert_eq!(
        shown,
        "\u{1b}[1;94m[Rust]\u{1b}[0m \u{1b}[1;97mco\u{1b}[0m\u{1b}[1;97mre\u{1b}[0m \
         \u{1b}[92m(v1.2.3)\u{1b}[0m \u{1b}[96m-\u{1b}[0m \u{1b}[90mCargo.toml\u{1b}[0m"
    );
}
