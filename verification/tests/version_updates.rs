use changepacks::dependency_pins::{sync_dependency_pins, sync_path_dependency_version};
use changepacks::manifest_update::{
    sync_manifest_dependency_pins, write_cargo_package_version, BumpedPackage,
};
use changepacks::package::{Language, RustPackage};
use changepacks::text_map::TextMap;
use changepacks::update_type::UpdateType;
use changepacks::workspace::{InheritedWorkspaceMemberIdentities, RustWorkspace};
use std::cell::RefCell;
use std::collections::BTreeMap;
use std::rc::Rc;
use toml_edit::DocumentMut;

/// The files of a test.
type Files = Rc<RefCell<BTreeMap<String, Stored>>>;

/// A file that may be read only.
#[derive(Clone)]
struct Stored {
    content: String,
    readonly: bool,
}

/// A path among the files of a test.
#[derive(Clone)]
struct FilePath {
    files: Files,
    text: String,
}

impl FilePath {
    fn join(&self, name: &str) -> FilePath {
        FilePath {
            files: self.files.clone(),
            text: format!("{}/{name}", self.text),
        }
    }

    fn is_there(&self) -> bool {
        self.files.borrow().contains_key(&self.text)
    }

    fn as_path(&self) -> &str {
        &self.text
    }
}

impl AsRef<FilePath> for FilePath {
    fn as_ref(&self) -> &FilePath {
        self
    }
}

/// A directory that holds the files of a test.
struct TempDir(FilePath);

impl TempDir {
    fn new() -> Result<TempDir, String> {
        Ok(TempDir(FilePath {
            files: Rc::new(RefCell::new(BTreeMap::new())),
            text: "/work".to_string(),
        }))
    }

    fn path(&self) -> &FilePath {
        &self.0
    }

    fn close(self) -> Result<(), String> {
        Ok(())
    }
}

#[allow(non_camel_case_types)]
struct fs;

impl fs {
    fn write(path: impl AsRef<FilePath>, content: impl Into<String>) -> Result<(), String> {
        let path = path.as_ref();
        write_file(&path.files, &path.text, &content.into())
    }

    fn set_readonly(path: impl AsRef<FilePath>, readonly: bool) {
        let path = path.as_ref();
        if let Some(stored) = path.files.borrow_mut().get_mut(&path.text) {
            stored.readonly = readonly;
        }
    }

    fn read(path: impl AsRef<FilePath>) -> Result<Vec<u8>, String> {
        fs::read_to_string(path).map(String::into_bytes)
    }

    fn read_to_string(path: impl AsRef<FilePath>) -> Result<String, String> {
        let path = path.as_ref();
        read_file(&path.files, &path.text)
    }
}

fn read_file(files: &Files, path: &str) -> Result<String, String> {
    match files.borrow().get(path) {
        Some(stored) => Ok(stored.content.clone()),
        None => Err(format!("cannot read {path}")),
    }
}

fn write_file(files: &Files, path: &str, content: &str) -> Result<(), String> {
    let mut files = files.borrow_mut();
    if files.get(path).is_some_and(|stored| stored.readonly) {
        return Err(format!("cannot write {path}"));
    }
    files.insert(
        path.to_string(),
        Stored {
            content: content.to_string(),
            readonly: false,
        },
    );
    Ok(())
}

fn bump_workspace(
    workspace: &mut RustWorkspace,
    update_type: UpdateType,
    temp_dir: &TempDir,
) -> Result<(), String> {
    let files = temp_dir.path().files.clone();
    workspace
        .update_version(
            update_type,
            |path: &str| read_file(&files, path),
            |path: &str, content: &str| write_file(&files, path, content),
        )
        .map_err(|error| error.message())
}

fn bump_package(
    package: &mut RustPackage,
    update_type: UpdateType,
    temp_dir: &TempDir,
) -> Result<(), String> {
    let files = temp_dir.path().files.clone();
    package
        .update_version(
            update_type,
            |path: &str| read_file(&files, path),
            |path: &str, content: &str| write_file(&files, path, content),
        )
        .map_err(|error| error.message())
}

fn update_dependencies(
    workspace: &RustWorkspace,
    packages: &Vec<BumpedPackage>,
    temp_dir: &TempDir,
) -> Result<(), String> {
    let files = temp_dir.path().files.clone();
    workspace
        .update_workspace_dependencies(
            packages,
            |path: &str| read_file(&files, path),
            |path: &str, content: &str| write_file(&files, path, content),
        )
        .map_err(|error| error.message())
}

fn write_version(path: &FilePath, new_version: &str) -> Result<(), String> {
    let original = read_file(&path.files, &path.text)?;
    let content = write_cargo_package_version(&original, &path.text, new_version)
        .map_err(|error| error.message())?;
    write_file(&path.files, &path.text, &content)
}

fn sync_pins(path: &FilePath, versions: &TextMap) -> Result<bool, String> {
    let original = read_file(&path.files, &path.text)?;
    let synced = sync_manifest_dependency_pins(&original, &path.text, versions)
        .map_err(|error| error.message())?;
    match synced {
        Some(content) => write_file(&path.files, &path.text, &content).map(|_| true),
        None => Ok(false),
    }
}

fn bumped(package: &RustPackage) -> BumpedPackage {
    BumpedPackage {
        language: package.language(),
        name: package.name().map(str::to_string),
        version: package.version().map(str::to_string),
    }
}

fn inherited_members(names: &[&str]) -> InheritedWorkspaceMemberIdentities {
    let mut members = InheritedWorkspaceMemberIdentities::new();
    for name in names {
        members.record(name, &vec![]);
    }
    members
}

#[test]
fn test_rust_workspace_new_hybrid_root_uses_root_scoped_publish_commands() {
    let workspace = RustWorkspace::new(
        Some("test-workspace".to_string()),
        Some("1.0.0".to_string()),
        "/test/Cargo.toml".to_string(),
        "test/Cargo.toml".to_string(),
    );

    assert_eq!(workspace.name(), Some("test-workspace"));
    assert_eq!(workspace.version(), Some("1.0.0"));
    assert_eq!(workspace.path(), "/test/Cargo.toml");
    assert_eq!(workspace.relative_path(), "test/Cargo.toml");
    assert_eq!(workspace.language(), Language::Rust);
    assert!(!workspace.is_changed());
    assert!(workspace.is_publishable_by_default());
    assert_eq!(workspace.default_publish_command(), "cargo publish");
    assert_eq!(
        workspace.default_dry_run_publish_command().as_deref(),
        Some("cargo publish --dry-run")
    );
}

#[test]
fn test_rust_workspace_new_without_name_and_version() {
    let mut workspace = RustWorkspace::new(
        None,
        None,
        "/test/Cargo.toml".to_string(),
        "test/Cargo.toml".to_string(),
    );

    assert_eq!(workspace.name(), None);
    assert_eq!(workspace.version(), None);
    assert!(!workspace.is_publishable_by_default());

    workspace.set_name("repository-name".to_string());
    assert_eq!(workspace.name(), Some("repository-name"));
    assert!(!workspace.is_publishable_by_default());
}

#[test]
fn test_rust_workspace_new_has_no_inherited_member_fanout_metadata() {
    let temp_dir = TempDir::new().unwrap();
    let cargo_toml = temp_dir.path().join("Cargo.toml");
    fs::write(
        &cargo_toml,
        r#"[workspace]
members = ["crates/*"]

[workspace.package]
version = "1.0.0"

[workspace.dependencies]
same-version-local = { path = "crates/same-version-local", version = "1.0.0" }
"#,
    )
    .unwrap();

    let mut workspace = RustWorkspace::new(
        None,
        Some("1.0.0".to_string()),
        cargo_toml.text.clone(),
        "Cargo.toml".to_string(),
    );
    bump_workspace(&mut workspace, UpdateType::Patch, &temp_dir).unwrap();

    let content = fs::read_to_string(&cargo_toml).unwrap();
    let document: toml_edit::DocumentMut = content.parse().unwrap();
    assert_eq!(
        document["workspace"]["package"]["version"].as_str(),
        Some("1.0.1")
    );
    assert_eq!(
        document["workspace"]["dependencies"]["same-version-local"]["version"].as_str(),
        Some("1.0.0")
    );
}

#[test]
fn test_rust_workspace_set_changed() {
    let mut workspace = RustWorkspace::new(
        Some("test-workspace".to_string()),
        Some("1.0.0".to_string()),
        "/test/Cargo.toml".to_string(),
        "test/Cargo.toml".to_string(),
    );

    assert!(!workspace.is_changed());
    workspace.set_changed(true);
    assert!(workspace.is_changed());
    workspace.set_changed(false);
    assert!(!workspace.is_changed());
}

#[test]
fn test_rust_workspace_update_version_with_existing_package() {
    for (update_type, expected) in [
        (UpdateType::Patch, "1.0.1"),
        (UpdateType::Minor, "1.1.0"),
        (UpdateType::Major, "2.0.0"),
    ] {
        check_rust_workspace_update_version_with_existing_package(update_type, expected);
    }
}

fn check_rust_workspace_update_version_with_existing_package(update_type: UpdateType, expected: &str) {
    let temp_dir = TempDir::new().unwrap();
    let cargo_toml = temp_dir.path().join("Cargo.toml");
    fs::write(
        &cargo_toml,
        r#"[workspace]
members = ["crates/*"]

[package]
name = "test-workspace"
version = "1.0.0"
"#,
    )
    .unwrap();

    let mut workspace = RustWorkspace::new(
        Some("test-workspace".to_string()),
        Some("1.0.0".to_string()),
        cargo_toml.text.clone(),
        "Cargo.toml".to_string(),
    );

    bump_workspace(&mut workspace, update_type, &temp_dir).unwrap();

    let content = fs::read_to_string(&cargo_toml).unwrap();
    assert!(content.contains(&format!("version = \"{expected}\"")));

    temp_dir.close().unwrap();
}

#[test]
fn test_rust_workspace_update_version_non_table_package_error_includes_path() {
    let temp_dir = TempDir::new().unwrap();
    let cargo_toml = temp_dir.path().join("Cargo.toml");
    fs::write(&cargo_toml, "package = 3\n").unwrap();

    let mut workspace = RustWorkspace::new(
        Some("test-workspace".to_string()),
        Some("1.0.0".to_string()),
        cargo_toml.text.clone(),
        "Cargo.toml".to_string(),
    );

    let err = bump_workspace(&mut workspace, UpdateType::Minor, &temp_dir)
        .expect_err("non-table package item must fail");
    let chain = err;
    assert!(
        chain.contains(cargo_toml.as_path()),
        "error chain should name the manifest path, got: {chain}"
    );
    assert!(
        chain.contains("non-table [package]"),
        "error chain should mention the non-table package item, got: {chain}"
    );

    temp_dir.close().unwrap();
}

#[test]
fn test_rust_workspace_update_version_non_table_package_leaves_state_untouched() {
    let temp_dir = TempDir::new().unwrap();
    let cargo_toml = temp_dir.path().join("Cargo.toml");
    let original = "package = \"not-a-table\"\n\n[workspace]\nmembers = [\"crates/*\"]\n";
    fs::write(&cargo_toml, original).unwrap();

    let mut workspace = RustWorkspace::new(
        Some("test-workspace".to_string()),
        Some("1.0.0".to_string()),
        cargo_toml.text.clone(),
        "Cargo.toml".to_string(),
    );

    let err = bump_workspace(&mut workspace, UpdateType::Patch, &temp_dir)
        .expect_err("non-table package item must fail");
    let chain = err;
    assert!(
        chain.contains("has a non-table [package] item"),
        "error chain should name the non-table package guard, got: {chain}"
    );

    assert_eq!(
        fs::read(&cargo_toml).unwrap(),
        original.as_bytes(),
        "a rejected bump must leave the manifest byte-identical"
    );
    assert_eq!(
        workspace.version(),
        Some("1.0.0"),
        "a rejected bump must not advance the in-memory version"
    );

    temp_dir.close().unwrap();
}

#[test]
fn test_rust_workspace_update_version_without_package_section() {
    let temp_dir = TempDir::new().unwrap();
    let cargo_toml = temp_dir.path().join("Cargo.toml");
    fs::write(&cargo_toml, "").unwrap();

    let mut workspace = RustWorkspace::new(
        Some("test-workspace".to_string()),
        None,
        cargo_toml.text.clone(),
        "Cargo.toml".to_string(),
    );

    bump_workspace(&mut workspace, UpdateType::Patch, &temp_dir).unwrap();

    let content = fs::read_to_string(&cargo_toml).unwrap();
    assert!(content.contains("[package]"));
    assert!(content.contains("version = \"0.0.1\""));
    assert!(content.contains("name = \"test-workspace\""));

    temp_dir.close().unwrap();
}

#[test]
fn test_rust_workspace_update_version_without_name() {
    let temp_dir = TempDir::new().unwrap();
    let cargo_toml = temp_dir.path().join("Cargo.toml");
    fs::write(&cargo_toml, "").unwrap();

    let mut workspace =
        RustWorkspace::new(None, None, cargo_toml.text.clone(), "Cargo.toml".to_string());

    bump_workspace(&mut workspace, UpdateType::Patch, &temp_dir).unwrap();

    let content = fs::read_to_string(&cargo_toml).unwrap();
    assert!(content.contains("[package]"));
    assert!(content.contains("version = \"0.0.1\""));
    assert!(content.contains("name = \"_\""));

    temp_dir.close().unwrap();
}

#[test]
fn test_rust_workspace_update_version_preserves_existing_name() {
    let temp_dir = TempDir::new().unwrap();
    let cargo_toml = temp_dir.path().join("Cargo.toml");
    fs::write(
        &cargo_toml,
        r#"[workspace]
members = ["crates/*"]

[package]
name = "existing-name"
version = "1.0.0"
"#,
    )
    .unwrap();

    let mut workspace = RustWorkspace::new(
        Some("test-workspace".to_string()),
        Some("1.0.0".to_string()),
        cargo_toml.text.clone(),
        "Cargo.toml".to_string(),
    );

    bump_workspace(&mut workspace, UpdateType::Patch, &temp_dir).unwrap();

    let content = fs::read_to_string(&cargo_toml).unwrap();
    assert!(content.contains("name = \"existing-name\""));
    assert!(content.contains("version = \"1.0.1\""));

    temp_dir.close().unwrap();
}

#[test]
fn test_rust_workspace_update_workspace_dependencies() {
    let temp_dir = TempDir::new().unwrap();
    let cargo_toml = temp_dir.path().join("Cargo.toml");
    fs::write(
        &cargo_toml,
        r#"[workspace]
members = ["crates/*"]

[workspace.dependencies]
core = { version = "1.0.0", path = "crates/core" }
utils = { version = "2.0.0", path = "crates/utils" }
serde = { version = "1.0.0" }
"#,
    )
    .unwrap();

    let workspace = RustWorkspace::new(
        Some("test-workspace".to_string()),
        Some("1.0.0".to_string()),
        cargo_toml.text.clone(),
        "Cargo.toml".to_string(),
    );

    let mut core_pkg = RustPackage::new(
        Some("core".to_string()),
        Some("1.1.0".to_string()),
        "/test/crates/core/Cargo.toml".to_string(),
        "crates/core/Cargo.toml".to_string(),
    );
    core_pkg.set_changed(true);

    let mut serde_pkg = RustPackage::new(
        Some("serde".to_string()),
        Some("1.1.0".to_string()),
        "/test/serde/Cargo.toml".to_string(),
        "serde/Cargo.toml".to_string(),
    );
    serde_pkg.set_changed(true);

    let packages = vec![bumped(&core_pkg), bumped(&serde_pkg)];

    update_dependencies(&workspace, &packages, &temp_dir)
        .unwrap();

    let content = fs::read_to_string(&cargo_toml).unwrap();
    assert_eq!(
        content,
        r#"[workspace]
members = ["crates/*"]

[workspace.dependencies]
core = { version = "1.1.0", path = "crates/core" }
utils = { version = "2.0.0", path = "crates/utils" }
serde = { version = "1.0.0" }
"#
    );

    temp_dir.close().unwrap();
}

fn write_path_dep_workspace_manifest(dir: &TempDir) -> (FilePath, Vec<u8>) {
    let cargo_toml = dir.path().join("Cargo.toml");
    fs::write(
        &cargo_toml,
        r#"[workspace]
members = ["crates/*"]

[workspace.dependencies]
core = { version = "1.0.0", path = "crates/core" }
utils = { version = "2.0.0", path = "crates/utils" }
"#,
    )
    .unwrap();
    let bytes = fs::read(&cargo_toml).unwrap();
    (cargo_toml, bytes)
}

fn assert_workspace_dependencies_fast_path(packages: &Vec<BumpedPackage>) {
    let temp_dir = TempDir::new().unwrap();
    let (cargo_toml, before) = write_path_dep_workspace_manifest(&temp_dir);

    let workspace = RustWorkspace::new(
        Some("test-workspace".to_string()),
        Some("1.0.0".to_string()),
        cargo_toml.text.clone(),
        "Cargo.toml".to_string(),
    );
    update_dependencies(&workspace, packages, &temp_dir)
        .expect("fast path must succeed");
    assert_eq!(
        fs::read(&cargo_toml).unwrap(),
        before,
        "fast path must leave the manifest byte-identical"
    );

    let missing = temp_dir.path().join("missing").join("Cargo.toml");
    let absent_workspace = RustWorkspace::new(
        Some("absent-workspace".to_string()),
        Some("1.0.0".to_string()),
        missing.text.clone(),
        "missing/Cargo.toml".to_string(),
    );
    update_dependencies(&absent_workspace, packages, &temp_dir)
        .expect("fast path must not touch the filesystem");
    assert!(
        !missing.is_there(),
        "fast path must not create the missing manifest"
    );

    temp_dir.close().unwrap();
}

#[test]
fn test_rust_workspace_update_workspace_dependencies_empty_packages() {
    assert_workspace_dependencies_fast_path(&vec![]);
}

#[test]
fn test_rust_workspace_update_workspace_dependencies_no_rust_packages() {
    let packages = vec![BumpedPackage {
        language: Language::Node,
        name: Some("core".to_string()),
        version: Some("9.9.9".to_string()),
    }];

    assert_workspace_dependencies_fast_path(&packages);
}

#[test]
fn test_rust_workspace_updates_inline_and_table_form_dependency_aliases() {
    let temp_dir = TempDir::new().unwrap();
    let cargo_toml = temp_dir.path().join("Cargo.toml");
    fs::write(
        &cargo_toml,
        r#"[workspace]
members = ["crates/*"]

[workspace.dependencies]
renamed-core = { package = "core", version = "1.0.0", path = "crates/core" }

[workspace.dependencies.renamed-utils]
package = "utils"
version = "2.0.0"
path = "crates/utils"
"#,
    )
    .unwrap();

    let workspace = RustWorkspace::new(
        Some("test-workspace".to_string()),
        Some("1.0.0".to_string()),
        cargo_toml.text.clone(),
        "Cargo.toml".to_string(),
    );
    let core_pkg = RustPackage::new(
        Some("core".to_string()),
        Some("1.1.0".to_string()),
        temp_dir.path().join("crates/core/Cargo.toml").text,
        "crates/core/Cargo.toml".to_string(),
    );
    let utils_pkg = RustPackage::new(
        Some("utils".to_string()),
        Some("2.1.0".to_string()),
        temp_dir.path().join("crates/utils/Cargo.toml").text,
        "crates/utils/Cargo.toml".to_string(),
    );
    let packages = vec![bumped(&core_pkg), bumped(&utils_pkg)];

    update_dependencies(&workspace, &packages, &temp_dir)
        .unwrap();

    let content = fs::read_to_string(&cargo_toml).unwrap();
    assert_eq!(
        content,
        r#"[workspace]
members = ["crates/*"]

[workspace.dependencies]
renamed-core = { package = "core", version = "1.1.0", path = "crates/core" }

[workspace.dependencies.renamed-utils]
package = "utils"
version = "2.1.0"
path = "crates/utils"
"#
    );

    temp_dir.close().unwrap();
}

#[test]
fn test_rust_workspace_skips_current_inline_dependency_write() {
    let temp_dir = TempDir::new().unwrap();
    let cargo_toml = temp_dir.path().join("Cargo.toml");
    let original = r#"[workspace]
[workspace.dependencies]
core = { version = "~1.2.3", path = "crates/core" }
"#;
    fs::write(&cargo_toml, original).unwrap();
    fs::set_readonly(&cargo_toml, true);

    let workspace = RustWorkspace::new(
        Some("test-workspace".to_string()),
        Some("1.0.0".to_string()),
        cargo_toml.text.clone(),
        "Cargo.toml".to_string(),
    );
    let core_pkg = RustPackage::new(
        Some("core".to_string()),
        Some("1.2.3".to_string()),
        temp_dir.path().join("crates/core/Cargo.toml").text,
        "crates/core/Cargo.toml".to_string(),
    );

    update_dependencies(&workspace, &vec![bumped(&core_pkg)], &temp_dir)
        .unwrap();

    assert_eq!(fs::read(&cargo_toml).unwrap(), original.as_bytes());
    temp_dir.close().unwrap();
}

#[test]
fn test_rust_workspace_skips_current_subtable_dependency_write() {
    let temp_dir = TempDir::new().unwrap();
    let cargo_toml = temp_dir.path().join("Cargo.toml");
    let original = r#"[workspace]
[workspace.dependencies.core]
version = "^2.0.0"
path = "crates/core"
"#;
    fs::write(&cargo_toml, original).unwrap();
    fs::set_readonly(&cargo_toml, true);

    let workspace = RustWorkspace::new(
        Some("test-workspace".to_string()),
        Some("1.0.0".to_string()),
        cargo_toml.text.clone(),
        "Cargo.toml".to_string(),
    );
    let core_pkg = RustPackage::new(
        Some("core".to_string()),
        Some("2.0.0".to_string()),
        temp_dir.path().join("crates/core/Cargo.toml").text,
        "crates/core/Cargo.toml".to_string(),
    );

    update_dependencies(&workspace, &vec![bumped(&core_pkg)], &temp_dir)
        .unwrap();

    assert_eq!(fs::read(&cargo_toml).unwrap(), original.as_bytes());
    temp_dir.close().unwrap();
}

#[test]
fn test_rust_workspace_update_workspace_dependencies_without_dependency_version() {
    let temp_dir = TempDir::new().unwrap();
    let cargo_toml = temp_dir.path().join("Cargo.toml");
    fs::write(
        &cargo_toml,
        r#"[workspace]
members = ["crates/*"]

[workspace.dependencies]
core = { path = "crates/core" }
utils = { version = "2.0.0", path = "crates/utils" }
"#,
    )
    .unwrap();

    let workspace = RustWorkspace::new(
        Some("test-workspace".to_string()),
        Some("1.0.0".to_string()),
        cargo_toml.text.clone(),
        "Cargo.toml".to_string(),
    );

    let core_pkg = RustPackage::new(
        Some("core".to_string()),
        Some("1.1.0".to_string()),
        "/test/crates/core/Cargo.toml".to_string(),
        "crates/core/Cargo.toml".to_string(),
    );

    let packages = vec![bumped(&core_pkg)];

    update_dependencies(&workspace, &packages, &temp_dir)
        .unwrap();

    let content = fs::read_to_string(&cargo_toml).unwrap();
    assert!(content.contains(r#"core = { path = "crates/core" }"#));
    assert!(content.contains(r#"utils = { version = "2.0.0", path = "crates/utils" }"#));

    temp_dir.close().unwrap();
}

#[test]
fn test_rust_workspace_update_workspace_dependencies_without_package_version() {
    let temp_dir = TempDir::new().unwrap();
    let cargo_toml = temp_dir.path().join("Cargo.toml");
    fs::write(
        &cargo_toml,
        r#"[workspace]
members = ["crates/*"]

[workspace.dependencies]
core = { version = "1.0.0", path = "crates/core" }
"#,
    )
    .unwrap();

    let workspace = RustWorkspace::new(
        Some("test-workspace".to_string()),
        Some("1.0.0".to_string()),
        cargo_toml.text.clone(),
        "Cargo.toml".to_string(),
    );

    let core_pkg = RustPackage::new(
        Some("core".to_string()),
        None,
        "/test/crates/core/Cargo.toml".to_string(),
        "crates/core/Cargo.toml".to_string(),
    );

    let packages = vec![bumped(&core_pkg)];

    update_dependencies(&workspace, &packages, &temp_dir)
        .unwrap();

    let content = fs::read_to_string(&cargo_toml).unwrap();
    assert!(content.contains(r#"core = { version = "1.0.0", path = "crates/core" }"#));

    temp_dir.close().unwrap();
}

#[test]
fn test_rust_workspace_update_workspace_dependencies_no_workspace_section() {
    let temp_dir = TempDir::new().unwrap();
    let cargo_toml = temp_dir.path().join("Cargo.toml");
    fs::write(
        &cargo_toml,
        r#"[package]
name = "test-package"
version = "1.0.0"
"#,
    )
    .unwrap();

    let workspace = RustWorkspace::new(
        Some("test-workspace".to_string()),
        Some("1.0.0".to_string()),
        cargo_toml.text.clone(),
        "Cargo.toml".to_string(),
    );

    let core_pkg = RustPackage::new(
        Some("core".to_string()),
        Some("1.1.0".to_string()),
        "/test/crates/core/Cargo.toml".to_string(),
        "crates/core/Cargo.toml".to_string(),
    );

    let packages = vec![bumped(&core_pkg)];

    update_dependencies(&workspace, &packages, &temp_dir)
        .unwrap();

    temp_dir.close().unwrap();
}

#[test]
fn test_rust_workspace_update_version_updates_workspace_package_version() {
    let temp_dir = TempDir::new().unwrap();
    let cargo_toml = temp_dir.path().join("Cargo.toml");
    fs::write(
        &cargo_toml,
        r#"[workspace]
members = ["crates/*"]

[workspace.package]
version = "1.0.0"
edition = "2024"

[package]
name = "test-workspace"
version = "1.0.0"
"#,
    )
    .unwrap();

    let mut workspace = RustWorkspace::new(
        Some("test-workspace".to_string()),
        Some("1.0.0".to_string()),
        cargo_toml.text.clone(),
        "Cargo.toml".to_string(),
    );

    bump_workspace(&mut workspace, UpdateType::Minor, &temp_dir).unwrap();

    let content = fs::read_to_string(&cargo_toml).unwrap();
    assert!(content.contains(r#"version = "1.1.0""#));
    let doc: toml_edit::DocumentMut = content.parse().unwrap();
    assert_eq!(doc["package"]["version"].as_str(), Some("1.1.0"));
    assert_eq!(
        doc["workspace"]["package"]["version"].as_str(),
        Some("1.1.0")
    );
}

#[test]
fn test_rust_workspace_update_version_preserves_hybrid_root_inheritance_marker() {
    let temp_dir = TempDir::new().unwrap();
    let cargo_toml = temp_dir.path().join("Cargo.toml");
    fs::write(
        &cargo_toml,
        r#"[workspace]
members = ["crates/*"]

[workspace.package]
version = "1.0.0"
edition = "2024"

[package]
name = "root"
version.workspace = true
"#,
    )
    .unwrap();

    let mut workspace = RustWorkspace::new(
        Some("root".to_string()),
        Some("1.0.0".to_string()),
        cargo_toml.text.clone(),
        "Cargo.toml".to_string(),
    );

    bump_workspace(&mut workspace, UpdateType::Minor, &temp_dir).unwrap();

    let content = fs::read_to_string(&cargo_toml).unwrap();
    assert!(
        content.contains("version.workspace = true"),
        "inheritance marker was clobbered: {content}"
    );

    let doc: toml_edit::DocumentMut = content.parse().unwrap();
    assert!(
        doc["package"]["version"].as_str().is_none(),
        "[package].version was rewritten to a string literal: {content}"
    );
    assert_eq!(
        doc["package"]["version"]["workspace"].as_bool(),
        Some(true),
        "[package].version should remain `workspace = true`"
    );
    assert_eq!(
        doc["workspace"]["package"]["version"].as_str(),
        Some("1.1.0")
    );

    temp_dir.close().unwrap();
}

#[test]
fn test_rust_workspace_update_version_virtual_workspace() {
    let temp_dir = TempDir::new().unwrap();
    let cargo_toml = temp_dir.path().join("Cargo.toml");
    fs::write(
        &cargo_toml,
        r#"[workspace]
resolver = "2"
members = ["crates/*"]

[workspace.package]
version = "0.1.33"
edition = "2024"
"#,
    )
    .unwrap();

    let mut workspace = RustWorkspace::new(
        None,
        Some("0.1.33".to_string()),
        cargo_toml.text.clone(),
        "Cargo.toml".to_string(),
    );

    bump_workspace(&mut workspace, UpdateType::Patch, &temp_dir).unwrap();

    let content = fs::read_to_string(&cargo_toml).unwrap();
    let doc: toml_edit::DocumentMut = content.parse().unwrap();
    assert_eq!(
        doc["workspace"]["package"]["version"].as_str(),
        Some("0.1.34")
    );
    assert!(
        doc.get("package").is_none(),
        "virtual workspace should not get a [package] section"
    );
}

#[test]
fn test_rust_workspace_update_version_virtual_workspace_without_version() {
    let temp_dir = TempDir::new().unwrap();
    let cargo_toml = temp_dir.path().join("Cargo.toml");
    fs::write(
        &cargo_toml,
        r#"[workspace]
resolver = "2"
members = ["crates/*"]
"#,
    )
    .unwrap();

    let mut workspace =
        RustWorkspace::new(None, None, cargo_toml.text.clone(), "Cargo.toml".to_string());

    bump_workspace(&mut workspace, UpdateType::Patch, &temp_dir).unwrap();

    let content = fs::read_to_string(&cargo_toml).unwrap();
    let doc: toml_edit::DocumentMut = content.parse().unwrap();
    assert_eq!(
        doc["workspace"]["package"]["version"].as_str(),
        Some("0.0.1")
    );
    assert!(
        doc.get("package").is_none(),
        "virtual workspace should not get a [package] section: {content}"
    );
    assert!(
        !content.contains("_"),
        "virtual workspace should not get a placeholder name: {content}"
    );

    temp_dir.close().unwrap();
}

#[test]
fn test_rust_workspace_update_version_syncs_workspace_dependencies() {
    let temp_dir = TempDir::new().unwrap();
    let cargo_toml = temp_dir.path().join("Cargo.toml");
    fs::write(
        &cargo_toml,
        r#"[workspace]
resolver = "2"
members = ["crates/*"]

[workspace.package]
version = "0.1.33"
edition = "2024"

[workspace.dependencies]
vespera_core = { path = "crates/vespera_core", version = "0.1.33" }
vespera_macro = { path = "crates/vespera_macro", version = "0.1.33" }
serde = { version = "1.0", features = ["derive"] }
tokio = { version = "1.0", features = ["full"] }
other_local = { path = "crates/other", version = "0.5.0" }
"#,
    )
    .unwrap();

    let mut workspace = RustWorkspace::new_with_inherited_workspace_members(
        None,
        Some("0.1.33".to_string()),
        cargo_toml.text.clone(),
        "Cargo.toml".to_string(),
        inherited_members(&["vespera_core", "vespera_macro"]),
        true,
    );

    bump_workspace(&mut workspace, UpdateType::Patch, &temp_dir).unwrap();

    let content = fs::read_to_string(&cargo_toml).unwrap();
    let doc: toml_edit::DocumentMut = content.parse().unwrap();

    assert_eq!(
        doc["workspace"]["package"]["version"].as_str(),
        Some("0.1.34")
    );

    let ws_deps = doc["workspace"]["dependencies"].as_table().unwrap();
    assert_eq!(
        ws_deps["vespera_core"]["version"].as_str(),
        Some("0.1.34"),
        "path dep with matching version should be bumped"
    );
    assert_eq!(
        ws_deps["vespera_macro"]["version"].as_str(),
        Some("0.1.34"),
        "path dep with matching version should be bumped"
    );

    assert_eq!(
        ws_deps["serde"]["version"].as_str(),
        Some("1.0"),
        "non-path dep should remain unchanged"
    );
    assert_eq!(
        ws_deps["tokio"]["version"].as_str(),
        Some("1.0"),
        "non-path dep should remain unchanged"
    );

    assert_eq!(
        ws_deps["other_local"]["version"].as_str(),
        Some("0.5.0"),
        "path dep with different version should remain unchanged"
    );

    assert!(doc.get("package").is_none());
}

#[test]
fn test_rust_workspace_update_version_syncs_subtable_dependencies() {
    let temp_dir = TempDir::new().unwrap();
    let cargo_toml = temp_dir.path().join("Cargo.toml");
    fs::write(
        &cargo_toml,
        r#"[workspace]
resolver = "2"
members = ["crates/*"]

[workspace.package]
version = "0.1.33"
edition = "2024"

[workspace.dependencies.vespera_core]
path = "crates/vespera_core"
version = "0.1.33"

[workspace.dependencies.vespera_macro]
version = "0.1.33"
path = "crates/vespera_macro"
features = ["derive"]

[workspace.dependencies.serde]
version = "1.0"
features = ["derive"]

[workspace.dependencies.other_local]
path = "crates/other"
version = "0.5.0"
"#,
    )
    .unwrap();

    let mut workspace = RustWorkspace::new_with_inherited_workspace_members(
        None,
        Some("0.1.33".to_string()),
        cargo_toml.text.clone(),
        "Cargo.toml".to_string(),
        inherited_members(&["vespera_core", "vespera_macro"]),
        true,
    );

    bump_workspace(&mut workspace, UpdateType::Patch, &temp_dir).unwrap();

    let content = fs::read_to_string(&cargo_toml).unwrap();
    let doc: toml_edit::DocumentMut = content.parse().unwrap();

    assert_eq!(
        doc["workspace"]["package"]["version"].as_str(),
        Some("0.1.34")
    );

    let ws_deps = doc["workspace"]["dependencies"].as_table().unwrap();

    assert_eq!(
        ws_deps["vespera_core"]["version"].as_str(),
        Some("0.1.34"),
        "sub-table path dep with matching version should be bumped"
    );
    assert_eq!(
        ws_deps["vespera_macro"]["version"].as_str(),
        Some("0.1.34"),
        "sub-table path dep with matching version should be bumped"
    );

    assert_eq!(
        ws_deps["vespera_core"]["path"].as_str(),
        Some("crates/vespera_core")
    );
    assert_eq!(
        ws_deps["vespera_macro"]["path"].as_str(),
        Some("crates/vespera_macro")
    );
    assert_eq!(
        ws_deps["vespera_macro"]["features"]
            .as_array()
            .unwrap()
            .len(),
        1,
        "sibling features array should be preserved"
    );

    assert_eq!(
        ws_deps["serde"]["version"].as_str(),
        Some("1.0"),
        "non-path sub-table dep should remain unchanged"
    );

    assert_eq!(
        ws_deps["other_local"]["version"].as_str(),
        Some("0.5.0"),
        "sub-table path dep with different version should remain unchanged"
    );

    assert!(content.contains("[workspace.dependencies.vespera_core]"));
    assert!(content.contains(r#"path = "crates/vespera_core""#));

    assert!(doc.get("package").is_none());

    temp_dir.close().unwrap();
}

#[test]
fn test_rust_workspace_update_version_subtable_non_matching_untouched() {
    let temp_dir = TempDir::new().unwrap();
    let cargo_toml = temp_dir.path().join("Cargo.toml");
    fs::write(
        &cargo_toml,
        r#"[workspace]
resolver = "2"
members = ["crates/*"]

[workspace.package]
version = "0.1.33"
edition = "2024"

[workspace.dependencies.registry_only]
version = "0.1.33"
features = ["derive"]

[workspace.dependencies.mismatched_local]
path = "crates/mismatched"
version = "0.5.0"
"#,
    )
    .unwrap();

    let mut workspace = RustWorkspace::new(
        None,
        Some("0.1.33".to_string()),
        cargo_toml.text.clone(),
        "Cargo.toml".to_string(),
    );

    bump_workspace(&mut workspace, UpdateType::Patch, &temp_dir).unwrap();

    let content = fs::read_to_string(&cargo_toml).unwrap();
    let doc: toml_edit::DocumentMut = content.parse().unwrap();

    assert_eq!(
        doc["workspace"]["package"]["version"].as_str(),
        Some("0.1.34")
    );

    let ws_deps = doc["workspace"]["dependencies"].as_table().unwrap();

    assert_eq!(
        ws_deps["registry_only"]["version"].as_str(),
        Some("0.1.33"),
        "registry sub-table dep without path should remain unchanged"
    );

    assert_eq!(
        ws_deps["mismatched_local"]["version"].as_str(),
        Some("0.5.0"),
        "sub-table path dep with different version should remain unchanged"
    );

    temp_dir.close().unwrap();
}

#[test]
fn test_rust_workspace_update_workspace_dependencies_subtable() {
    let temp_dir = TempDir::new().unwrap();
    let cargo_toml = temp_dir.path().join("Cargo.toml");
    fs::write(
        &cargo_toml,
        r#"[workspace]
members = ["crates/*"]

[workspace.dependencies.core]
version = "1.0.0"
path = "crates/core"

[workspace.dependencies.utils]
version = "2.0.0"
path = "crates/utils"

[workspace.dependencies.serde]
version = "1.0.0"
features = ["derive"]
"#,
    )
    .unwrap();

    let workspace = RustWorkspace::new(
        Some("test-workspace".to_string()),
        Some("1.0.0".to_string()),
        cargo_toml.text.clone(),
        "Cargo.toml".to_string(),
    );

    let mut core_pkg = RustPackage::new(
        Some("core".to_string()),
        Some("1.1.0".to_string()),
        "/test/crates/core/Cargo.toml".to_string(),
        "crates/core/Cargo.toml".to_string(),
    );
    core_pkg.set_changed(true);

    let mut serde_pkg = RustPackage::new(
        Some("serde".to_string()),
        Some("1.1.0".to_string()),
        "/test/serde/Cargo.toml".to_string(),
        "serde/Cargo.toml".to_string(),
    );
    serde_pkg.set_changed(true);

    let packages = vec![bumped(&core_pkg), bumped(&serde_pkg)];

    update_dependencies(&workspace, &packages, &temp_dir)
        .unwrap();

    let content = fs::read_to_string(&cargo_toml).unwrap();
    assert_eq!(
        content,
        r#"[workspace]
members = ["crates/*"]

[workspace.dependencies.core]
version = "1.1.0"
path = "crates/core"

[workspace.dependencies.utils]
version = "2.0.0"
path = "crates/utils"

[workspace.dependencies.serde]
version = "1.0.0"
features = ["derive"]
"#
    );

    temp_dir.close().unwrap();
}

#[test]
fn test_rust_workspace_update_workspace_dependencies_subtable_without_version() {
    let temp_dir = TempDir::new().unwrap();
    let cargo_toml = temp_dir.path().join("Cargo.toml");
    fs::write(
        &cargo_toml,
        r#"[workspace]
members = ["crates/*"]

[workspace.dependencies.core]
path = "crates/core"

[workspace.dependencies.utils]
version = "2.0.0"
path = "crates/utils"
"#,
    )
    .unwrap();

    let workspace = RustWorkspace::new(
        Some("test-workspace".to_string()),
        Some("1.0.0".to_string()),
        cargo_toml.text.clone(),
        "Cargo.toml".to_string(),
    );

    let core_pkg = RustPackage::new(
        Some("core".to_string()),
        Some("1.1.0".to_string()),
        "/test/crates/core/Cargo.toml".to_string(),
        "crates/core/Cargo.toml".to_string(),
    );

    let packages = vec![bumped(&core_pkg)];

    update_dependencies(&workspace, &packages, &temp_dir)
        .unwrap();

    let content = fs::read_to_string(&cargo_toml).unwrap();
    let doc: toml_edit::DocumentMut = content.parse().unwrap();
    let ws_deps = doc["workspace"]["dependencies"].as_table().unwrap();

    assert!(
        ws_deps["core"].get("version").is_none(),
        "no version key should be inserted into a sub-table dep that lacks one"
    );
    assert_eq!(ws_deps["core"]["path"].as_str(), Some("crates/core"));
    assert_eq!(ws_deps["utils"]["version"].as_str(), Some("2.0.0"));

    temp_dir.close().unwrap();
}

#[test]
fn test_rust_package_new() {
    let package = RustPackage::new(
        Some("test-package".to_string()),
        Some("1.0.0".to_string()),
        "/test/Cargo.toml".to_string(),
        "test/Cargo.toml".to_string(),
    );

    assert_eq!(package.name(), Some("test-package"));
    assert_eq!(package.version(), Some("1.0.0"));
    assert_eq!(package.path(), "/test/Cargo.toml");
    assert_eq!(package.relative_path(), "test/Cargo.toml");
    assert_eq!(package.language(), Language::Rust);
    assert!(!package.is_changed());
    assert_eq!(package.default_publish_command(), "cargo publish");
    assert_eq!(
        package.default_dry_run_publish_command().as_deref(),
        Some("cargo publish --dry-run")
    );
}

#[test]
fn test_rust_package_set_changed() {
    let mut package = RustPackage::new(
        Some("test-package".to_string()),
        Some("1.0.0".to_string()),
        "/test/Cargo.toml".to_string(),
        "test/Cargo.toml".to_string(),
    );

    assert!(!package.is_changed());
    package.set_changed(true);
    assert!(package.is_changed());
    package.set_changed(false);
    assert!(!package.is_changed());
}

#[test]
fn test_rust_package_update_version() {
    for (update_type, expected) in [
        (UpdateType::Patch, "1.0.1"),
        (UpdateType::Minor, "1.1.0"),
        (UpdateType::Major, "2.0.0"),
    ] {
        check_rust_package_update_version(update_type, expected);
    }
}

fn check_rust_package_update_version(update_type: UpdateType, expected: &str) {
    let temp_dir = TempDir::new().unwrap();
    let cargo_toml = temp_dir.path().join("Cargo.toml");
    fs::write(
        &cargo_toml,
        r#"[package]
name = "test-package"
version = "1.0.0"
"#,
    )
    .unwrap();

    let mut package = RustPackage::new(
        Some("test-package".to_string()),
        Some("1.0.0".to_string()),
        cargo_toml.text.clone(),
        "Cargo.toml".to_string(),
    );

    bump_package(&mut package, update_type, &temp_dir).unwrap();

    let content = fs::read_to_string(&cargo_toml).unwrap();
    assert!(content.contains(&format!("version = \"{expected}\"")));

    temp_dir.close().unwrap();
}

#[test]
fn test_rust_package_update_version_preserves_formatting() {
    let temp_dir = TempDir::new().unwrap();
    let cargo_toml = temp_dir.path().join("Cargo.toml");
    fs::write(
        &cargo_toml,
        r#"[package]
name = "test-package"
version = "1.2.3"
edition = "2021"

[dependencies]
tokio = "1.0"
"#,
    )
    .unwrap();

    let mut package = RustPackage::new(
        Some("test-package".to_string()),
        Some("1.2.3".to_string()),
        cargo_toml.text.clone(),
        "Cargo.toml".to_string(),
    );

    bump_package(&mut package, UpdateType::Patch, &temp_dir).unwrap();

    let content = fs::read_to_string(&cargo_toml).unwrap();
    assert!(content.contains("version = \"1.2.4\""));
    assert!(content.contains("name = \"test-package\""));
    assert!(content.contains("edition = \"2021\""));
    assert!(content.contains("[dependencies]"));

    temp_dir.close().unwrap();
}

#[test]
fn test_rust_package_update_version_preserves_workspace_inheritance() {
    let temp_dir = TempDir::new().unwrap();
    let cargo_toml = temp_dir.path().join("Cargo.toml");
    let original_content = r#"[package]
name = "test-inherited"
version.workspace = true
edition = "2024"

[dependencies]
"#;
    fs::write(&cargo_toml, original_content).unwrap();

    let mut package = RustPackage::new_with_workspace_version(
        Some("test-inherited".to_string()),
        Some("1.0.0".to_string()),
        cargo_toml.text.clone(),
        "crates/test-inherited/Cargo.toml".to_string(),
        Some("/test/Cargo.toml".to_string()),
    );

    bump_package(&mut package, UpdateType::Patch, &temp_dir).unwrap();

    let content = fs::read_to_string(&cargo_toml).unwrap();
    assert!(
        content.contains("version.workspace = true"),
        "inheritance marker was clobbered: {content}"
    );
    assert!(
        !content.contains("version = \""),
        "member Cargo.toml gained a hardcoded version string: {content}"
    );
    assert_eq!(package.version(), Some("1.0.0"));
}

#[test]
fn test_rust_package_update_version_bump_error_includes_path() {
    let temp_dir = TempDir::new().unwrap();
    let manifest = "/nonexistent/rustpkg-bump/Cargo.toml".to_string();
    let mut package = RustPackage::new(
        Some("test-package".to_string()),
        Some("abc".to_string()),
        manifest.clone(),
        "rustpkg-bump/Cargo.toml".to_string(),
    );
    let err = bump_package(&mut package, UpdateType::Patch, &temp_dir)
        .expect_err("a malformed version must fail the bump");
    let chain = err;
    assert!(
        chain.contains(manifest.as_str()),
        "error chain should name the manifest path, got: {chain}"
    );
}

#[test]
fn test_rust_package_update_version_malformed_manifest_leaves_file_untouched() {
    let temp_dir = TempDir::new().unwrap();
    let cargo_toml = temp_dir.path().join("Cargo.toml");
    let original = "invalid toml [[[";
    fs::write(&cargo_toml, original).unwrap();

    let mut package = RustPackage::new(
        Some("test-package".to_string()),
        Some("1.0.0".to_string()),
        cargo_toml.text.clone(),
        "Cargo.toml".to_string(),
    );

    let err = bump_package(&mut package, UpdateType::Patch, &temp_dir)
        .expect_err("a malformed Cargo.toml must fail the bump");
    let chain = err;
    assert!(
        chain.contains("Failed to parse Cargo.toml"),
        "error chain should name the parse failure, got: {chain}"
    );
    assert!(
        chain.contains(cargo_toml.as_path()),
        "error chain should name the manifest path, got: {chain}"
    );

    assert_eq!(
        fs::read(&cargo_toml).unwrap(),
        original.as_bytes(),
        "a rejected bump must leave the manifest byte-identical"
    );
    assert_eq!(
        package.version(),
        Some("1.0.0"),
        "a rejected bump must not advance the in-memory version"
    );

    temp_dir.close().unwrap();
}

#[test]
fn test_write_cargo_package_version_preserves_complete_trailing_whitespace() {
    let temp_dir = TempDir::new().unwrap();
    let cargo_toml = temp_dir.path().join("Cargo.toml");
    let suffix = " \t\r\n \n";
    fs::write(
        &cargo_toml,
        format!("[package]\nname = \"x\"\nversion = \"1.0.0\"{suffix}"),
    )
    .unwrap();

    write_version(&cargo_toml, "2.0.0")
        .unwrap();

    assert_eq!(
        fs::read_to_string(&cargo_toml).unwrap(),
        format!("[package]\nname = \"x\"\nversion = \"2.0.0\"{suffix}")
    );
}

#[test]
fn test_write_cargo_package_version_error_includes_path() {
    let temp_dir = TempDir::new().unwrap();
    let cargo_toml = temp_dir.path().join("Cargo.toml");
    fs::write(&cargo_toml, "[package]\nversion = \"1.0.0\"\n").unwrap();

    fs::set_readonly(&cargo_toml, true);

    let result = write_version(&cargo_toml, "2.0.0");

    fs::set_readonly(&cargo_toml, false);

    let err = result.expect_err("write to a readonly Cargo.toml must fail");
    let chain = err;
    assert!(
        chain.contains(cargo_toml.as_path()),
        "error chain should name the manifest path, got: {chain}"
    );
}

#[test]
fn test_write_cargo_package_version_non_table_package_error_includes_path() {
    let temp_dir = TempDir::new().unwrap();
    let cargo_toml = temp_dir.path().join("Cargo.toml");
    fs::write(&cargo_toml, "package = 3\n").unwrap();

    let err = write_version(&cargo_toml, "2.0.0")
        .expect_err("non-table package item must fail");
    let chain = err;
    assert!(
        chain.contains(cargo_toml.as_path()),
        "error chain should name the manifest path, got: {chain}"
    );
    assert!(
        chain.contains("non-table [package]"),
        "error chain should mention the non-table package item, got: {chain}"
    );
}

#[test]
fn test_write_cargo_package_version_non_table_package_leaves_file_untouched() {
    let temp_dir = TempDir::new().unwrap();
    let cargo_toml = temp_dir.path().join("Cargo.toml");
    let original = "package = \"not-a-table\"\n\n[dependencies]\nserde = \"1\"\n";
    fs::write(&cargo_toml, original).unwrap();

    let err = write_version(&cargo_toml, "1.0.1")
        .expect_err("non-table package item must fail");
    let chain = err;
    assert!(
        chain.contains("has a non-table [package] item"),
        "error chain should name the non-table package guard, got: {chain}"
    );

    assert_eq!(
        fs::read(&cargo_toml).unwrap(),
        original.as_bytes(),
        "a rejected bump must leave the manifest byte-identical"
    );
}

#[test]
fn test_write_cargo_package_version_creates_proper_package_header() {
    let temp_dir = TempDir::new().unwrap();
    let cargo_toml = temp_dir.path().join("Cargo.toml");
    fs::write(&cargo_toml, "[workspace]\nmembers = [\"a\"]\n").unwrap();

    write_version(&cargo_toml, "0.0.1")
        .unwrap();

    let written = fs::read_to_string(&cargo_toml).unwrap();
    assert!(
        written.lines().any(|line| line.trim() == "[package]"),
        "output must contain a literal [package] header line, got: {written}"
    );
    assert!(
        written.contains("version = \"0.0.1\""),
        "output must contain the new version, got: {written}"
    );
    assert!(
        !written.contains("package = {"),
        "output must not use the inline-table form, got: {written}"
    );
    assert!(
        written.lines().any(|line| line.trim() == "[workspace]")
            && written.contains("members = [\"a\"]"),
        "output must preserve the existing [workspace] section, got: {written}"
    );
}

#[test]
fn test_write_cargo_package_version_preserves_version_line_decor() {
    let temp_dir = TempDir::new().unwrap();
    let cargo_toml = temp_dir.path().join("Cargo.toml");
    let original = "# release-managed manifest\n[package]\nname = \"x\"\nversion = \"1.0.0\" # pinned by release tooling\nedition = \"2024\"\n";
    fs::write(&cargo_toml, original).unwrap();

    write_version(&cargo_toml, "2.0.0")
        .unwrap();

    assert_eq!(
        fs::read_to_string(&cargo_toml).unwrap(),
        original.replace("1.0.0", "2.0.0"),
        "only the version literal may change"
    );
}

fn round_trip_manifest(version: &str) -> String {
    format!(
        "# demo crate manifest - this header comment must survive a bump\n\n[dependencies]\nserde = {{ version = \"1\",  features = [\"derive\"] }}\ndemo-core = {{ path = \"../core\", version = \"0.1\" }}\n\n[package]\nname = \"demo\"\nversion = \"{version}\" # bumped by changepacks\nedition = \"2024\"\ncategories = [\n    \"development-tools\",\n    \"command-line-utilities\",\n]\n",
        version = version
    )
}

#[test]
fn test_write_cargo_package_version_preserves_comments_and_table_order() {
    let temp_dir = TempDir::new().unwrap();
    let cargo_toml = temp_dir.path().join("Cargo.toml");
    fs::write(&cargo_toml, round_trip_manifest("1.2.3")).unwrap();

    write_version(&cargo_toml, "2.0.0")
        .expect("a well-formed manifest must be writable");

    assert_eq!(
        fs::read_to_string(&cargo_toml).unwrap(),
        round_trip_manifest("2.0.0"),
        "only the version literal may change; everything else must be byte-identical"
    );
}

#[test]
fn test_sync_path_dependency_version_rejections_write_nothing() {
    for (spec, accept) in [
        ("\"1.0\"", true),
        ("{ version = \"1.0\" }", true),
        ("{ path = \"../dep\" }", true),
        ("{ path = \"../dep\", version = 1 }", true),
        ("{ path = \"../dep\", version = \"1.0\" }", false),
    ] {
        check_sync_rejection(spec, accept);
    }
}

fn check_sync_rejection(spec: &str, accept: bool) {
    let original = format!("dep = {spec}\n");
    let mut doc: DocumentMut = original.parse().unwrap();

    let written = sync_path_dependency_version(
        doc.get_mut("dep").expect("fixture declares `dep`"),
        "2.0.0",
        |_| accept,
    );

    assert!(!written, "rejected entry reported a write: {spec}");
    assert_eq!(
        doc.to_string(),
        original,
        "a rejected entry must leave the manifest byte-identical"
    );
}

#[test]
fn test_sync_path_dependency_version_rewrites_accepted_entry_in_place() {
    let mut doc: DocumentMut = "dep = { path = \"../dep\", version = \"^1.2.3\" } # pinned\n"
        .parse()
        .unwrap();

    let written = sync_path_dependency_version(
        doc.get_mut("dep").expect("fixture declares `dep`"),
        "2.0.0",
        |current| current == "^1.2.3",
    );

    assert!(written);
    assert_eq!(
        doc.to_string(),
        "dep = { path = \"../dep\", version = \"^2.0.0\" } # pinned\n"
    );
}

fn versions_of(pairs: &[(&'static str, &'static str)]) -> TextMap {
    let mut versions = TextMap::new();
    for (name, version) in pairs {
        versions.insert(name.to_string(), version.to_string());
    }
    versions
}

fn pin_manifest(core: &str, tool: &str) -> String {
    format!(
        "[workspace]\nmembers = [\"crates/*\"]\n\n# hand-maintained pins\n[workspace.dependencies]\nrayon        = \"1.12\"\ndemo-core    = {{ path = \"crates/demo-core\", version = \"{core}\", default-features = false }}\naliased-core = {{ package = \"demo-core\", path = \"crates/demo-core\", version = \"{core}\" }}\ndemo-app     = {{ path = \"crates/demo-app\", version = \"0.2\" }}\n\n[dependencies]\ndemo-tool = {{ path = \"crates/demo-tool\", version = \"{tool}\" }} # direct sibling pin\npath-only = {{ path = \"crates/path-only\" }}\n\n[dev-dependencies.demo-tool]\npath = \"crates/demo-tool\"\nversion = \"{tool}\"\n\n[target.'cfg(unix)'.build-dependencies]\ndemo-tool = {{ path = \"crates/demo-tool\", version = \"{tool}\" }}\n",
        core = core,
        tool = tool
    )
}

#[test]
fn test_sync_dependency_pins_rewrites_every_local_table_and_preserves_format() {
    let mut doc: DocumentMut = pin_manifest("=0.2.1", "^0.2.1").parse().unwrap();

    let written = sync_dependency_pins(
        &mut doc,
        &versions_of(&[("demo-core", "0.3.0"), ("demo-tool", "0.3.0")]),
    );

    assert!(written);
    assert_eq!(doc.to_string(), pin_manifest("=0.3.0", "^0.3.0"));
}

#[test]
fn test_sync_dependency_pins_leaves_a_still_covering_requirement_untouched() {
    let original = pin_manifest("=0.2.1", "^0.2.1");
    let mut doc: DocumentMut = original.parse().unwrap();

    let written = sync_dependency_pins(&mut doc, &versions_of(&[("demo-app", "0.2.2")]));

    assert!(
        !written,
        "a still-covering requirement must not be rewritten"
    );
    assert_eq!(doc.to_string(), original);
}

#[test]
fn test_sync_manifest_dependency_pins_skips_the_write_when_nothing_matches() {
    let temp_dir = TempDir::new().unwrap();
    let cargo_toml = temp_dir.path().join("Cargo.toml");
    let original = pin_manifest("=0.2.1", "^0.2.1");
    fs::write(&cargo_toml, &original).unwrap();

    fs::set_readonly(&cargo_toml, true);
    let result =
        sync_pins(&cargo_toml, &versions_of(&[("other", "9.9.9")]));
    fs::set_readonly(&cargo_toml, false);

    assert!(!result.expect("a no-match manifest must not be written"));
    assert_eq!(fs::read_to_string(&cargo_toml).unwrap(), original);
}

#[test]
fn test_sync_manifest_dependency_pins_writes_the_retargeted_manifest() {
    let temp_dir = TempDir::new().unwrap();
    let cargo_toml = temp_dir.path().join("Cargo.toml");
    fs::write(&cargo_toml, pin_manifest("=0.2.1", "^0.2.1")).unwrap();

    let written =
        sync_pins(&cargo_toml, &versions_of(&[("demo-core", "0.3.0")]))
            .unwrap();

    assert!(written);
    assert_eq!(
        fs::read_to_string(&cargo_toml).unwrap(),
        pin_manifest("=0.3.0", "^0.2.1")
    );
}

#[test]
fn a_refused_manifest_is_not_written() {
    let unwritten = |_: &str, _: &str| -> Result<(), String> { panic!("nothing may be written") };
    let mut package = RustPackage::new(
        Some("core".to_string()),
        Some("1.0.0".to_string()),
        "/repo/core/Cargo.toml".to_string(),
        "core/Cargo.toml".to_string(),
    );
    let error = package
        .update_version(UpdateType::Patch, |_: &str| Ok("package = 1\n".to_string()), unwritten)
        .unwrap_err();
    assert_eq!(
        error.message(),
        "Cargo.toml /repo/core/Cargo.toml has a non-table [package] item"
    );
    assert_eq!(package.version(), Some("1.0.0"));

    let mut workspace = RustWorkspace::new(
        None,
        Some("1.0.0".to_string()),
        "/repo/Cargo.toml".to_string(),
        "Cargo.toml".to_string(),
    );
    let error = workspace
        .update_version(UpdateType::Patch, |_: &str| Ok("[workspace".to_string()), unwritten)
        .unwrap_err();
    assert!(error.message().contains("Failed to parse Cargo.toml /repo/Cargo.toml"));
    assert_eq!(workspace.version(), Some("1.0.0"));
}

#[test]
fn a_version_that_cannot_move_is_neither_read_nor_written() {
    let mut workspace = RustWorkspace::new(
        None,
        Some("abc".to_string()),
        "/repo/Cargo.toml".to_string(),
        "Cargo.toml".to_string(),
    );
    let error = workspace
        .update_version(
            UpdateType::Patch,
            |_: &str| -> Result<String, String> { panic!("nothing may be read") },
            |_: &str, _: &str| -> Result<(), String> { panic!("nothing may be written") },
        )
        .unwrap_err();
    assert_eq!(error.message(), "Invalid version: abc");
    assert_eq!(workspace.version(), Some("abc"));
}

#[test]
fn an_inheriting_member_is_neither_read_nor_written() {
    let mut package = RustPackage::new_with_workspace_version(
        Some("core".to_string()),
        Some("1.0.0".to_string()),
        "/repo/core/Cargo.toml".to_string(),
        "core/Cargo.toml".to_string(),
        Some("/repo/Cargo.toml".to_string()),
    );
    package
        .update_version(
            UpdateType::Major,
            |_: &str| -> Result<String, String> { panic!("nothing may be read") },
            |_: &str, _: &str| -> Result<(), String> { panic!("nothing may be written") },
        )
        .unwrap();
    assert_eq!(package.version(), Some("1.0.0"));
}

#[test]
fn settled_dependencies_are_not_written() {
    let workspace = RustWorkspace::new(
        None,
        None,
        "/repo/Cargo.toml".to_string(),
        "Cargo.toml".to_string(),
    );
    let packages = vec![BumpedPackage {
        language: Language::Rust,
        name: Some("core".to_string()),
        version: Some("1.1.0".to_string()),
    }];
    let settled = "[workspace.dependencies]\ncore = { path = \"core\", version = \"1.1.0\" }\n";
    workspace
        .update_workspace_dependencies(
            &packages,
            |_: &str| Ok(settled.to_string()),
            |_: &str, _: &str| -> Result<(), String> { panic!("nothing may be written") },
        )
        .unwrap();
    workspace
        .update_workspace_dependencies(
            &vec![],
            |_: &str| -> Result<String, String> { panic!("nothing may be read") },
            |_: &str, _: &str| -> Result<(), String> { panic!("nothing may be written") },
        )
        .unwrap();
}

fn laid_out_manifest(version: &str) -> String {
    format!(
        "# top\n\n  # before the header\n[ package ] # after it\n\n# before a key\n\"name\"   = 'core'\n\
         version = \"{version}\"\npublish = [ \"a\", # one\n  \"b\" ]\n\n\n[workspace] # root\n\
         package . version =   \"{version}\" # shared\n\n# far below\n[[bin]]\nname = \"x\"\n\n\
         # at the very end\n\n"
    )
}

#[test]
fn an_update_keeps_how_everything_else_is_written() {
    let mut workspace = RustWorkspace::new(
        Some("core".to_string()),
        Some("1.0.0".to_string()),
        "/repo/Cargo.toml".to_string(),
        "Cargo.toml".to_string(),
    );
    let written = RefCell::new(String::new());
    workspace
        .update_version(
            UpdateType::Minor,
            |_: &str| Ok(laid_out_manifest("1.0.0")),
            |_: &str, content: &str| -> Result<(), String> {
                *written.borrow_mut() = content.to_string();
                Ok(())
            },
        )
        .unwrap();
    assert_eq!(written.into_inner(), laid_out_manifest("1.1.0"));
}

#[test]
fn a_new_key_leaves_the_others_as_they_are_written() {
    let original = "# top\n[package] # core\n# the name\nname = 'core'\n\n# the end\n";
    assert_eq!(
        write_cargo_package_version(original, "Cargo.toml", "0.1.0").unwrap(),
        "# top\n[package] # core\n# the name\nname = 'core'\nversion = \"0.1.0\"\n\n# the end\n"
    );
}

#[test]
fn a_package_that_is_made_starts_with_its_version() {
    let mut workspace = RustWorkspace::new(
        Some("root".to_string()),
        Some("1.0.0".to_string()),
        "/repo/Cargo.toml".to_string(),
        "Cargo.toml".to_string(),
    );
    let written = RefCell::new(String::new());
    workspace
        .update_version(
            UpdateType::Patch,
            |_: &str| Ok("[features]\nextra = []\n".to_string()),
            |_: &str, content: &str| -> Result<(), String> {
                *written.borrow_mut() = content.to_string();
                Ok(())
            },
        )
        .unwrap();
    assert_eq!(
        written.into_inner(),
        "[features]\nextra = []\n\n[package]\nversion = \"1.0.1\"\nname = \"root\"\n"
    );
}
