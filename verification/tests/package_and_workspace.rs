use changepacks::package::{Language, RustPackage};
use changepacks::project::Project;
use changepacks::workspace::{InheritedWorkspaceMemberIdentities, RustWorkspace};

fn holds(list: &[String], name: &str) -> bool {
    list.iter().any(|entry| entry == name)
}

#[test]
fn test_rust_package_dependencies() {
    let mut package = RustPackage::new(
        Some("test-package".to_string()),
        Some("1.0.0".to_string()),
        "/test/Cargo.toml".to_string(),
        "test/Cargo.toml".to_string(),
    );

    // Initially empty
    assert!(package.dependencies().is_empty());

    // Add dependencies
    package.add_dependency("core");
    package.add_dependency("utils");

    let deps = package.dependencies();
    assert_eq!(deps.len(), 2);
    assert!(holds(deps, "core"));
    assert!(holds(deps, "utils"));

    // Adding duplicate should not increase count
    package.add_dependency("core");
    assert_eq!(package.dependencies().len(), 2);
}

#[test]
fn test_rust_package_inherits_workspace_version() {
    let package = RustPackage::new(
        Some("test".to_string()),
        Some("1.0.0".to_string()),
        "/test/Cargo.toml".to_string(),
        "test/Cargo.toml".to_string(),
    );
    assert!(!package.inherits_workspace_version());
    assert!(package.workspace_root_path().is_none());
}

#[test]
fn test_rust_package_with_workspace_version() {
    let package = RustPackage::new_with_workspace_version(
        Some("test".to_string()),
        Some("1.0.0".to_string()),
        "/test/crates/foo/Cargo.toml".to_string(),
        "crates/foo/Cargo.toml".to_string(),
        Some("/test/Cargo.toml".to_string()),
    );
    assert!(package.inherits_workspace_version());
    assert_eq!(package.workspace_root_path(), Some("/test/Cargo.toml"));
}

#[test]
fn package_test_set_name() {
    let mut package = RustPackage::new(
        None,
        Some("1.0.0".to_string()),
        "/test/Cargo.toml".to_string(),
        "Cargo.toml".to_string(),
    );
    assert_eq!(package.name(), None);
    package.set_name("my-project".to_string());
    assert_eq!(package.name(), Some("my-project"));
}

#[test]
fn test_rust_workspace_dependencies() {
    let mut workspace = RustWorkspace::new(
        Some("test-workspace".to_string()),
        Some("1.0.0".to_string()),
        "/test/Cargo.toml".to_string(),
        "test/Cargo.toml".to_string(),
    );

    // Initially empty
    assert!(workspace.dependencies().is_empty());

    // Add dependencies
    workspace.add_dependency("core");
    workspace.add_dependency("utils");

    let deps = workspace.dependencies();
    assert_eq!(deps.len(), 2);
    assert!(holds(deps, "core"));
    assert!(holds(deps, "utils"));

    // Adding duplicate should not increase count
    workspace.add_dependency("core");
    assert_eq!(workspace.dependencies().len(), 2);
}

#[test]
fn workspace_test_set_name() {
    let mut workspace = RustWorkspace::new(
        None,
        Some("1.0.0".to_string()),
        "/test/Cargo.toml".to_string(),
        "Cargo.toml".to_string(),
    );
    assert_eq!(workspace.name(), None);
    workspace.set_name("my-project".to_string());
    assert_eq!(workspace.name(), Some("my-project"));
}

#[test]
fn a_new_package_is_unchanged_and_publishable() {
    let mut package = RustPackage::new(
        Some("test-package".to_string()),
        Some("1.0.0".to_string()),
        "/test/Cargo.toml".to_string(),
        "test/Cargo.toml".to_string(),
    );
    assert_eq!(package.name(), Some("test-package"));
    assert_eq!(package.version(), Some("1.0.0"));
    assert_eq!(package.path(), "/test/Cargo.toml");
    assert_eq!(package.relative_path(), "test/Cargo.toml");
    assert_eq!(package.language(), Language::Rust);
    assert!(!package.is_changed());
    assert!(package.is_publishable_by_default());
    assert_eq!(package.default_publish_command(), "cargo publish");
    package.set_changed(true);
    assert!(package.is_changed());
    package.set_changed(false);
    assert!(!package.is_changed());
    assert!(!package.with_publishable_by_default(false).is_publishable_by_default());
}

#[test]
fn inherited_members_are_known_by_name_and_alias() {
    let mut members = InheritedWorkspaceMemberIdentities::new();
    members.record("core", &vec!["core-alias".to_string()]);
    assert!(members.contains_dependency("core", "core"));
    assert!(members.contains_dependency("core-alias", "core"));
    assert!(!members.contains_dependency("core-alias", "other"));
    assert!(!members.contains_dependency("other", "core"));
}

#[test]
fn a_project_shows_what_it_wraps() {
    let mut project = Project::Workspace(RustWorkspace::new(
        None,
        Some("1.0.0".to_string()),
        "/test/Cargo.toml".to_string(),
        "Cargo.toml".to_string(),
    ));
    assert_eq!(project.name(), None);
    project.set_name("root".to_string());
    project.set_changed(true);
    project.add_dependency("core");
    assert_eq!(project.name(), Some("root"));
    assert_eq!(project.version(), Some("1.0.0"));
    assert!(project.is_changed());
    assert_eq!(project.dependencies(), &vec!["core".to_string()]);
}
