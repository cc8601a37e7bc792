use changepacks::apply_reverse_dependencies::apply_reverse_dependencies;
use changepacks::finder::{FinderError, ManifestRead, RustProjectFinder};
use changepacks::package::RustPackage;
use changepacks::path_map::PathMap;
use changepacks::project::Project;
use changepacks::update_map::{ChangePackResultLog, UpdateMap};
use changepacks::update_type::UpdateType;
use changepacks::workspace::RustWorkspace;
use std::cell::RefCell;
use std::collections::BTreeMap;
use std::ops::{Deref, DerefMut};
use std::rc::Rc;

/// The files of a test; a directory has no content.
type Files = Rc<RefCell<BTreeMap<String, Option<String>>>>;

/// A path among the files of a test.
#[derive(Clone)]
struct FilePath {
    files: Files,
    text: String,
}

impl FilePath {
    fn join(&self, name: &str) -> FilePath {
        FilePath {
            files: self.files.clone(),
            text: format!("{}/{name}", self.text),
        }
    }

    fn parent(&self) -> Option<FilePath> {
        let (dir, _) = self.text.rsplit_once('/')?;
        Some(FilePath {
            files: self.files.clone(),
            text: dir.to_string(),
        })
    }

    fn as_path(&self) -> &str {
        &self.text
    }
}

impl AsRef<FilePath> for FilePath {
    fn as_ref(&self) -> &FilePath {
        self
    }
}

/// A directory that holds the files of a test.
struct TempDir(FilePath);

impl TempDir {
    fn new() -> Result<TempDir, String> {
        Ok(TempDir(FilePath {
            files: Rc::new(RefCell::new(BTreeMap::new())),
            text: "/work".to_string(),
        }))
    }

    fn path(&self) -> &FilePath {
        &self.0
    }

    fn close(self) -> Result<(), String> {
        Ok(())
    }
}

#[allow(non_camel_case_types)]
struct fs;

impl fs {
    fn write(path: impl AsRef<FilePath>, content: impl Into<String>) -> Result<(), String> {
        let path = path.as_ref();
        path.files
            .borrow_mut()
            .insert(path.text.clone(), Some(content.into()));
        Ok(())
    }

    fn create_dir_all(_path: impl AsRef<FilePath>) -> Result<(), String> {
        Ok(())
    }

    fn create_dir(path: impl AsRef<FilePath>) -> Result<(), String> {
        let path = path.as_ref();
        path.files.borrow_mut().insert(path.text.clone(), None);
        Ok(())
    }

    fn remove_file(path: impl AsRef<FilePath>) -> Result<(), String> {
        let path = path.as_ref();
        path.files.borrow_mut().remove(&path.text);
        Ok(())
    }

    fn read_to_string(path: impl AsRef<FilePath>) -> Result<String, String> {
        let path = path.as_ref();
        let files = path.files.borrow();
        match files.get(&path.text) {
            Some(Some(content)) => Ok(content.clone()),
            _ => Err("cannot be read".to_string()),
        }
    }
}

fn text(path: impl Into<String>) -> String {
    path.into()
}

fn rel(path: &str) -> &str {
    path
}

/// A finder that reads what it needs from the files of a test.
struct Finder {
    inner: RustProjectFinder,
    files: Files,
}

impl Finder {
    fn new() -> Finder {
        Finder {
            inner: RustProjectFinder::new(),
            files: Rc::new(RefCell::new(BTreeMap::new())),
        }
    }

    fn read(&self, path: &str) -> ManifestRead {
        match self.files.borrow().get(path) {
            None => ManifestRead::Missing,
            Some(None) => ManifestRead::Failed("is a directory".to_string()),
            Some(Some(content)) => ManifestRead::Content(content.clone()),
        }
    }

    fn visit(&mut self, path: impl AsRef<FilePath>, relative_path: &str) -> Result<(), FinderError> {
        let path = path.as_ref();
        self.files = path.files.clone();
        let mut reads = PathMap::new();
        loop {
            match self.inner.visit(&path.text, relative_path, &reads) {
                Err(FinderError::Unread { path }) => {
                    let read = self.read(&path);
                    reads.insert(path, read);
                }
                result => return result,
            }
        }
    }

    fn finalize(&mut self) -> Result<(), FinderError> {
        let mut reads = PathMap::new();
        loop {
            match self.inner.finalize(&reads) {
                Err(FinderError::Unread { path }) => {
                    let read = self.read(&path);
                    reads.insert(path, read);
                }
                result => return result,
            }
        }
    }

    fn projects(&self) -> Vec<&Project> {
        let entries = &self.inner.projects.entries;
        entries.iter().map(|entry| &entry.value).collect()
    }

    fn projects_mut(&mut self) -> Vec<&mut Project> {
        let entries = &mut self.inner.projects.entries;
        entries.iter_mut().map(|entry| &mut entry.value).collect()
    }
}

impl Deref for Finder {
    type Target = RustProjectFinder;

    fn deref(&self) -> &RustProjectFinder {
        &self.inner
    }
}

impl DerefMut for Finder {
    fn deref_mut(&mut self) -> &mut RustProjectFinder {
        &mut self.inner
    }
}

trait Expect {
    fn expect_package(&self) -> &RustPackage;
    fn expect_workspace(&self) -> &RustWorkspace;
}

impl Expect for Project {
    fn expect_package(&self) -> &RustPackage {
        match self {
            Project::Package(package) => package,
            Project::Workspace(_) => panic!("expected a package"),
        }
    }

    fn expect_workspace(&self) -> &RustWorkspace {
        match self {
            Project::Workspace(workspace) => workspace,
            Project::Package(_) => panic!("expected a workspace"),
        }
    }
}

trait HoldsText {
    fn contains(&self, name: &str) -> bool;
}

impl HoldsText for Vec<String> {
    fn contains(&self, name: &str) -> bool {
        self.iter().any(|entry| entry == name)
    }
}

fn bump(project: &mut Project, files: &Files) {
    let read = |path: &str| -> Result<String, String> {
        files
            .borrow()
            .get(path)
            .cloned()
            .flatten()
            .ok_or("cannot be read".to_string())
    };
    let write = |path: &str, content: &str| -> Result<(), String> {
        files
            .borrow_mut()
            .insert(path.to_string(), Some(content.to_string()));
        Ok(())
    };
    match project {
        Project::Workspace(workspace) => workspace
            .update_version(UpdateType::Patch, read, write)
            .unwrap(),
        Project::Package(package) => package
            .update_version(UpdateType::Patch, read, write)
            .unwrap(),
    }
}

fn write_inherited_version_workspace(
    root: &FilePath,
    package_name: &str,
    version: &str,
) -> (FilePath, FilePath) {
    fs::create_dir_all(root).unwrap();
    let workspace_toml = root.join("Cargo.toml");
    fs::write(
        &workspace_toml,
        format!(
            r#"[workspace]
members = ["crates/*"]

[workspace.package]
version = "{version}"
"#
        ),
    )
    .unwrap();

    let package_dir = root.join("crates").join(package_name);
    fs::create_dir_all(&package_dir).unwrap();
    let package_toml = package_dir.join("Cargo.toml");
    fs::write(
        &package_toml,
        format!(
            r#"[package]
name = "{package_name}"
version.workspace = true
"#
        ),
    )
    .unwrap();

    (workspace_toml, package_toml)
}

fn write_inherited_version_fanout_workspace(
    root: &FilePath,
    package_name: &str,
    version: &str,
) -> (FilePath, FilePath) {
    fs::create_dir_all(root).unwrap();
    let workspace_toml = root.join("Cargo.toml");
    fs::write(
        &workspace_toml,
        format!(
            r#"[workspace]
members = ["crates/*"]

[workspace.package]
version = "{version}"

[workspace.dependencies]
{package_name} = {{ path = "crates/{package_name}", version = "{version}" }}
"#
        ),
    )
    .unwrap();

    let package_dir = root.join("crates").join(package_name);
    fs::create_dir_all(&package_dir).unwrap();
    let package_toml = package_dir.join("Cargo.toml");
    fs::write(
        &package_toml,
        format!(
            r#"[package]
name = "{package_name}"
version.workspace = true
"#
        ),
    )
    .unwrap();

    (workspace_toml, package_toml)
}

fn bump_workspace(finder: &mut Finder, relative_path: &str) {
    let files = finder.files.clone();
    let workspace = finder
        .projects_mut()
        .into_iter()
        .find(|project| {
            matches!(project, Project::Workspace(_)) && project.relative_path() == relative_path
        })
        .expect("workspace project should be discovered");
    bump(workspace, &files);
}

fn visit_single_manifest(content: &str) -> (TempDir, Finder) {
    let temp_dir = TempDir::new().unwrap();
    let cargo_toml = temp_dir.path().join("Cargo.toml");
    fs::write(&cargo_toml, content).unwrap();
    let mut finder = Finder::new();
    finder
        .visit(&cargo_toml, &text("Cargo.toml"))
        .unwrap();
    (temp_dir, finder)
}

#[test]
fn test_rust_project_finder_construction() {
    let finder = Finder::new();
    assert_eq!(finder.project_files(), ["Cargo.toml"]);
    assert_eq!(finder.projects().len(), 0);
}

#[test]
fn test_rust_project_finder_visit_package() {
    let temp_dir = TempDir::new().unwrap();
    let cargo_toml = temp_dir.path().join("Cargo.toml");
    fs::write(
        &cargo_toml,
        r#"[package]
name = "test-package"
version = "1.0.0"
"#,
    )
    .unwrap();

    let mut finder = Finder::new();
    finder
        .visit(&cargo_toml, &text("Cargo.toml"))
        .unwrap();

    let projects = finder.projects();
    assert_eq!(projects.len(), 1);
    let pkg = projects[0].expect_package();
    assert_eq!(pkg.name(), Some("test-package"));
    assert_eq!(pkg.version(), Some("1.0.0"));
    assert!(pkg.is_publishable_by_default());

    temp_dir.close().unwrap();
}

#[test]
fn test_rust_project_finder_standalone_publish_false_is_not_publishable_by_default() {
    let (_temp_dir, finder) = visit_single_manifest(
        r#"[package]
name = "private-package"
version = "1.0.0"
publish = false
"#,
    );

    let projects = finder.projects();
    assert_eq!(projects.len(), 1);
    assert!(!projects[0].is_publishable_by_default());
}

#[test]
fn test_rust_project_finder_publish_registry_list_remains_publishable_by_default() {
    let (_temp_dir, finder) = visit_single_manifest(
        r#"[package]
name = "registry-package"
version = "1.0.0"
publish = ["internal"]
"#,
    );

    let projects = finder.projects();
    assert_eq!(projects.len(), 1);
    assert!(projects[0].is_publishable_by_default());
}

#[test]
fn test_rust_project_finder_empty_publish_list_is_not_publishable_by_default() {
    let (_temp_dir, finder) = visit_single_manifest(
        r#"[package]
name = "empty-allow-list-package"
version = "1.0.0"
publish = []
"#,
    );

    let projects = finder.projects();
    assert_eq!(projects.len(), 1);
    assert!(!projects[0].is_publishable_by_default());
}

#[test]
fn test_rust_project_finder_multi_registry_publish_list_remains_publishable_by_default() {
    let (_temp_dir, finder) = visit_single_manifest(
        r#"[package]
name = "multi-registry-package"
version = "1.0.0"
publish = ["internal", "mirror"]
"#,
    );

    let projects = finder.projects();
    assert_eq!(projects.len(), 1);
    assert!(projects[0].is_publishable_by_default());
}

#[test]
fn test_rust_project_finder_visit_workspace() {
    let temp_dir = TempDir::new().unwrap();
    let cargo_toml = temp_dir.path().join("Cargo.toml");
    fs::write(
        &cargo_toml,
        r#"[workspace]
members = ["crates/*"]

[package]
name = "test-workspace"
version = "1.0.0"
"#,
    )
    .unwrap();

    let mut finder = Finder::new();
    finder
        .visit(&cargo_toml, &text("Cargo.toml"))
        .unwrap();

    let projects = finder.projects();
    assert_eq!(projects.len(), 1);
    let ws = projects[0].expect_workspace();
    assert_eq!(ws.name(), Some("test-workspace"));
    assert_eq!(ws.version(), Some("1.0.0"));

    temp_dir.close().unwrap();
}

#[test]
fn test_rust_project_finder_hybrid_root_publish_false_is_not_publishable_by_default() {
    let (_temp_dir, finder) = visit_single_manifest(
        r#"[workspace]
members = ["crates/*"]

[package]
name = "private-workspace"
version = "1.0.0"
publish = false
"#,
    );

    let projects = finder.projects();
    assert_eq!(projects.len(), 1);
    assert!(matches!(projects[0], Project::Workspace(_)));
    assert!(!projects[0].is_publishable_by_default());
}

#[test]
fn test_rust_project_finder_visit_workspace_without_package() {
    let temp_dir = TempDir::new().unwrap();
    let cargo_toml = temp_dir.path().join("Cargo.toml");
    fs::write(
        &cargo_toml,
        r#"[workspace]
members = ["crates/*"]
"#,
    )
    .unwrap();

    let mut finder = Finder::new();
    finder
        .visit(&cargo_toml, &text("Cargo.toml"))
        .unwrap();

    let projects = finder.projects();
    assert_eq!(projects.len(), 1);
    let ws = projects[0].expect_workspace();
    assert_eq!(ws.name(), None);
    assert_eq!(ws.version(), None);
    assert!(!ws.is_publishable_by_default());

    temp_dir.close().unwrap();
}

#[test]
fn test_inherited_version_member_publish_false_is_not_publishable_by_default() {
    let temp_dir = TempDir::new().unwrap();
    let (workspace_toml, package_toml) =
        write_inherited_version_workspace(temp_dir.path(), "private-member", "1.0.0");
    fs::write(
        &package_toml,
        r#"[package]
name = "private-member"
version.workspace = true
publish = false
"#,
    )
    .unwrap();

    let mut finder = Finder::new();
    finder
        .visit(&workspace_toml, &text("Cargo.toml"))
        .unwrap();
    finder
        .visit(
            &package_toml,
            &text("crates/private-member/Cargo.toml"),
        )
        .unwrap();
    finder.finalize().unwrap();

    let member = finder
        .projects()
        .into_iter()
        .find(|project| project.name() == Some("private-member"))
            .expect("inherited-version member should be discovered");
    assert!(matches!(member, Project::Package(_)));
    assert_eq!(member.version(), Some("1.0.0"));
    assert!(!member.is_publishable_by_default());
}

fn discover_member_publishable(
    workspace_package_extra: &str,
    member_package_body: &str,
) -> bool {
    let temp_dir = TempDir::new().unwrap();
    let workspace_toml = temp_dir.path().join("Cargo.toml");
    fs::write(
        &workspace_toml,
        format!(
            "[workspace]\nmembers = [\"crates/*\"]\n\n[workspace.package]\nversion = \"1.0.0\"\n{workspace_package_extra}"
        ),
    )
    .unwrap();

    let member_dir = temp_dir.path().join("crates").join("member");
        fs::create_dir_all(&member_dir).unwrap();
        let member_toml = member_dir.join("Cargo.toml");
    fs::write(
        &member_toml,
        format!("[package]\nname = \"member\"\n{member_package_body}"),
    )
    .unwrap();

    let mut finder = Finder::new();
    finder
        .visit(&workspace_toml, &text("Cargo.toml"))
        .unwrap();
    finder
        .visit(&member_toml, &text("crates/member/Cargo.toml"))
        .unwrap();
    finder.finalize().unwrap();

    let publishable = finder
        .projects()
        .into_iter()
        .find(|project| project.name() == Some("member"))
            .expect("member should be discovered")
        .is_publishable_by_default();

    temp_dir.close().unwrap();
    publishable
}

#[test]
fn test_inherited_publish_member_resolves_workspace_publish_value() {
    for (workspace_publish, expected) in [
        ("publish = false\n", false),
        ("publish = []\n", false),
        ("publish = true\n", true),
        ("publish = [\"internal\"]\n", true),
        ("", true),
    ] {
        let publishable = discover_member_publishable(
            workspace_publish,
            "version.workspace = true\npublish.workspace = true\n",
        );
        assert_eq!(
            publishable, expected,
            "member inheriting publish under root {workspace_publish:?}"
        );
    }
}

#[test]
fn test_inherited_publish_inline_table_marker_resolves_workspace_publish_value() {
    assert!(
        !discover_member_publishable(
            "publish = false\n",
            "version.workspace = true\npublish = { workspace = true }\n",
        )
    );
}

#[test]
fn test_inherited_publish_member_with_literal_version_honours_workspace_root() {
    assert!(
        !discover_member_publishable(
            "publish = false\n",
            "version = \"2.0.0\"\npublish.workspace = true\n",
        )
    );
}

#[test]
fn test_standalone_publish_answers_ignore_workspace_publish_value() {
    assert!(
        discover_member_publishable(
            "publish = false\n",
            "version.workspace = true\npublish = [\"internal\"]\n",
        )
    );
    assert!(
        !discover_member_publishable(
            "publish = true\n",
            "version.workspace = true\npublish = false\n",
        )
    );
    assert!(
        discover_member_publishable("publish = false\n", "version.workspace = true\n")
    );
}

#[test]
fn test_hybrid_root_inherited_publish_resolves_from_own_workspace_package() {
    let (_temp_dir, finder) = visit_single_manifest(
        r#"[workspace]
members = ["crates/*"]

[workspace.package]
publish = false

[package]
name = "hybrid-root"
version = "1.0.0"
publish.workspace = true
"#,
    );

    let projects = finder.projects();
    assert_eq!(projects.len(), 1);
    assert!(matches!(projects[0], Project::Workspace(_)));
    assert!(!projects[0].is_publishable_by_default());
}

#[test]
fn test_inherited_publish_without_workspace_root_defaults_to_publishable() {
    let (_temp_dir, finder) = visit_single_manifest(
        r#"[package]
name = "orphan"
version = "1.0.0"
publish.workspace = true
"#,
    );

    let projects = finder.projects();
    assert_eq!(projects.len(), 1);
    assert!(projects[0].is_publishable_by_default());
}

#[test]
fn test_inherited_publish_uses_nearest_workspace_root() {
    let temp_dir = TempDir::new().unwrap();
    let outer_toml = temp_dir.path().join("Cargo.toml");
    fs::write(
        &outer_toml,
        "[workspace]\nmembers = [\"inner\"]\n\n[workspace.package]\nversion = \"1.0.0\"\npublish = false\n",
    )
    .unwrap();

    let inner_dir = temp_dir.path().join("inner");
        let member_dir = inner_dir.join("crates").join("member");
        fs::create_dir_all(&member_dir).unwrap();
        fs::write(
            inner_dir.join("Cargo.toml"),
        "[workspace]\nmembers = [\"crates/*\"]\n\n[workspace.package]\nversion = \"2.0.0\"\n",
    )
    .unwrap();
    let member_toml = member_dir.join("Cargo.toml");
    fs::write(
        &member_toml,
        "[package]\nname = \"member\"\nversion = \"2.0.0\"\npublish.workspace = true\n",
    )
    .unwrap();

    let mut finder = Finder::new();
    finder
        .visit(
            &member_toml,
            &text("inner/crates/member/Cargo.toml"),
        )
        .unwrap();
    finder.finalize().unwrap();

    let member = finder
        .projects()
        .into_iter()
        .find(|project| project.name() == Some("member"))
            .expect("member should be discovered");
    assert!(member.is_publishable_by_default());

    temp_dir.close().unwrap();
}

#[test]
fn test_rust_project_finder_visit_workspace_uses_workspace_package_version() {
    let temp_dir = TempDir::new().unwrap();
    let cargo_toml = temp_dir.path().join("Cargo.toml");
    fs::write(
        &cargo_toml,
        r#"[workspace]
resolver = "2"
members = ["crates/*"]

[workspace.package]
version = "0.1.33"
edition = "2024"
"#,
    )
    .unwrap();

    let mut finder = Finder::new();
    finder
        .visit(&cargo_toml, &text("Cargo.toml"))
        .unwrap();

    let projects = finder.projects();
    assert_eq!(projects.len(), 1);
    let ws = projects[0].expect_workspace();
    assert_eq!(ws.name(), None);
    assert_eq!(ws.version(), Some("0.1.33"));

    temp_dir.close().unwrap();
}

#[test]
fn test_rust_project_finder_visit_non_cargo_file() {
    let temp_dir = TempDir::new().unwrap();
    let other_file = temp_dir.path().join("other.txt");
    fs::write(&other_file, "some content").unwrap();

    let mut finder = Finder::new();
    finder
        .visit(&other_file, &text("other.txt"))
        .unwrap();

    assert_eq!(finder.projects().len(), 0);

    temp_dir.close().unwrap();
}

#[test]
fn test_rust_project_finder_visit_directory() {
    let temp_dir = TempDir::new().unwrap();
    let cargo_toml = temp_dir.path().join("Cargo.toml");
    fs::write(
        &cargo_toml,
        r#"[package]
name = "test-package"
version = "1.0.0"
"#,
    )
    .unwrap();

    let mut finder = Finder::new();
    finder
        .visit(temp_dir.path(), &text("."))
        .unwrap();

    assert_eq!(finder.projects().len(), 0);

    temp_dir.close().unwrap();
}

#[test]
fn test_rust_project_finder_visit_duplicate() {
    let temp_dir = TempDir::new().unwrap();
    let cargo_toml = temp_dir.path().join("Cargo.toml");
    fs::write(
        &cargo_toml,
        r#"[package]
name = "test-package"
version = "1.0.0"
"#,
    )
    .unwrap();

    let mut finder = Finder::new();
    finder
        .visit(&cargo_toml, &text("Cargo.toml"))
        .unwrap();

    assert_eq!(finder.projects().len(), 1);

    finder
        .visit(&cargo_toml, &text("Cargo.toml"))
        .unwrap();

    assert_eq!(finder.projects().len(), 1);

    temp_dir.close().unwrap();
}

#[test]
fn test_rust_project_finder_visit_inherited_member_twice_defers_once() {
    let temp_dir = TempDir::new().unwrap();
    let (_workspace_toml, package_toml) =
        write_inherited_version_workspace(temp_dir.path(), "member", "3.1.4");
    let relative_path = text("crates/member/Cargo.toml");

    let mut finder = Finder::new();
    for _ in 0..2 {
        finder.visit(&package_toml, &relative_path).unwrap();
    }

    assert_eq!(finder.pending_workspace_packages.len(), 1);
    assert_eq!(
        finder.pending_workspace_packages[0].path,
        package_toml.as_path()
    );

    finder.finalize().unwrap();

    assert!(finder.pending_workspace_packages.is_empty());
    let members = finder
        .projects()
        .into_iter()
        .filter(|project| project.name() == Some("member"))
            .collect::<Vec<_>>();
        assert_eq!(members.len(), 1);
        assert_eq!(members[0].version(), Some("3.1.4"));

    temp_dir.close().unwrap();
}

#[test]
fn test_rust_project_finder_visit_multiple_packages() {
    let temp_dir = TempDir::new().unwrap();
    let cargo_toml1 = temp_dir.path().join("package1").join("Cargo.toml");
    fs::create_dir_all(cargo_toml1.parent().unwrap()).unwrap();
    fs::write(
        &cargo_toml1,
        r#"[package]
name = "package1"
version = "1.0.0"
"#,
    )
    .unwrap();

    let cargo_toml2 = temp_dir.path().join("package2").join("Cargo.toml");
    fs::create_dir_all(cargo_toml2.parent().unwrap()).unwrap();
    fs::write(
        &cargo_toml2,
        r#"[package]
name = "package2"
version = "2.0.0"
"#,
    )
    .unwrap();

    let mut finder = Finder::new();
    finder
        .visit(&cargo_toml1, &text("package1/Cargo.toml"))
        .unwrap();
    finder
        .visit(&cargo_toml2, &text("package2/Cargo.toml"))
        .unwrap();

    let projects = finder.projects();
    assert_eq!(projects.len(), 2);

    temp_dir.close().unwrap();
}

#[test]
fn test_rust_project_finder_projects_mut() {
    let temp_dir = TempDir::new().unwrap();
    let cargo_toml = temp_dir.path().join("Cargo.toml");
    fs::write(
        &cargo_toml,
        r#"[package]
name = "test-package"
version = "1.0.0"
"#,
    )
    .unwrap();

    let mut finder = Finder::new();
    finder
        .visit(&cargo_toml, &text("Cargo.toml"))
        .unwrap();

    let mut_projects = finder.projects_mut();
    assert_eq!(mut_projects.len(), 1);

    temp_dir.close().unwrap();
}

#[test]
fn test_rust_project_finder_visit_package_with_workspace_dependencies() {
    let temp_dir = TempDir::new().unwrap();
    let cargo_toml = temp_dir.path().join("Cargo.toml");
    fs::write(
        &cargo_toml,
        r#"[package]
name = "test-package"
version = "1.0.0"

[dependencies]
core = { workspace = true }
utils = { workspace = true }
external = "1.0"
"#,
    )
    .unwrap();

    let mut finder = Finder::new();
    finder
        .visit(&cargo_toml, &text("Cargo.toml"))
        .unwrap();

    let projects = finder.projects();
    assert_eq!(projects.len(), 1);
    let pkg = projects[0].expect_package();
    assert_eq!(pkg.name(), Some("test-package"));
    let deps = pkg.dependencies();
    assert_eq!(deps.len(), 2);
    assert!(deps.contains("core"));
    assert!(deps.contains("utils"));
    assert!(!deps.contains("external"));

    temp_dir.close().unwrap();
}

#[test]
fn test_rust_project_finder_visit_package_with_path_dependencies() {
    let temp_dir = TempDir::new().unwrap();
    let cargo_toml = temp_dir.path().join("Cargo.toml");
    fs::write(
        &cargo_toml,
        r#"[package]
name = "test-package"
version = "1.0.0"

[dependencies]
foo = { path = "../foo", version = "0.1" }
external = "1.0"
"#,
    )
    .unwrap();

    let mut finder = Finder::new();
    finder
        .visit(&cargo_toml, &text("Cargo.toml"))
        .unwrap();

    let projects = finder.projects();
    assert_eq!(projects.len(), 1);
    let deps = projects[0].expect_package().dependencies();
    assert_eq!(deps.len(), 1, "expected only the path dep, got {deps:?}");
    assert!(deps.contains("foo"));
    assert!(!deps.contains("external"));

    temp_dir.close().unwrap();
}

#[test]
fn test_rust_project_finder_resolves_inline_and_target_table_path_aliases() {
    let temp_dir = TempDir::new().unwrap();
    let core_dir = temp_dir.path().join("crates/core");
    let target_core_dir = temp_dir.path().join("crates/target-core");
    let app_dir = temp_dir.path().join("crates/app");
    fs::create_dir_all(&core_dir).unwrap();
    fs::create_dir_all(&target_core_dir).unwrap();
    fs::create_dir_all(&app_dir).unwrap();

    let core_toml = core_dir.join("Cargo.toml");
    let target_core_toml = target_core_dir.join("Cargo.toml");
    let app_toml = app_dir.join("Cargo.toml");
    fs::write(
        &core_toml,
        "[package]\nname = \"core\"\nversion = \"1.0.0\"\n",
    )
    .unwrap();
    fs::write(
        &target_core_toml,
        "[package]\nname = \"target-core\"\nversion = \"1.0.0\"\n",
    )
    .unwrap();
    fs::write(
        &app_toml,
        r#"[package]
name = "app"
version = "1.0.0"

[dependencies]
renamed-core = { package = "core", path = "../core", version = "1.0.0" }

[target.'cfg(unix)'.dependencies.renamed-target-core]
package = "target-core"
path = "../target-core"
version = "1.0.0"
"#,
    )
    .unwrap();

    let mut finder = Finder::new();
    finder
        .visit(&app_toml, &text("crates/app/Cargo.toml"))
        .unwrap();
    finder
        .visit(&core_toml, &text("crates/core/Cargo.toml"))
        .unwrap();
    finder
        .visit(
            &target_core_toml,
            &text("crates/target-core/Cargo.toml"),
        )
        .unwrap();

    let app = finder
        .projects()
        .into_iter()
        .find(|project| project.name() == Some("app"))
        .unwrap();
    assert_eq!(app.dependencies().len(), 2);
    assert!(app.dependencies().contains("core"));
    assert!(app.dependencies().contains("target-core"));
    assert!(!app.dependencies().contains("renamed-core"));
    assert!(!app.dependencies().contains("renamed-target-core"));

    let projects = finder.projects();

    let mut update_map = UpdateMap::new();
    update_map.insert_new(
        "crates/core/Cargo.toml".to_string(),
        UpdateType::Minor,
        vec![ChangePackResultLog::new(UpdateType::Minor, "Update core".to_string())],
    );
    apply_reverse_dependencies(&mut update_map, &projects, temp_dir.path().as_path())
        .unwrap();
    assert_eq!(
        update_map.get("crates/app/Cargo.toml").unwrap().update_type,
        UpdateType::Patch
    );

    temp_dir.close().unwrap();
}

#[test]
fn test_rust_project_finder_resolves_workspace_inherited_alias_from_root_definition() {
    let temp_dir = TempDir::new().unwrap();
    let core_dir = temp_dir.path().join("crates/core");
    let app_dir = temp_dir.path().join("crates/app");
    fs::create_dir_all(&core_dir).unwrap();
    fs::create_dir_all(&app_dir).unwrap();

    let workspace_toml = temp_dir.path().join("Cargo.toml");
    let core_toml = core_dir.join("Cargo.toml");
    let app_toml = app_dir.join("Cargo.toml");
    fs::write(
        &workspace_toml,
        r#"[workspace]
members = ["crates/*"]

[workspace.dependencies]
renamed-core = { package = "core", path = "crates/core" }
"#,
    )
    .unwrap();
    fs::write(
        &core_toml,
        "[package]\nname = \"core\"\nversion = \"1.0.0\"\n",
    )
    .unwrap();
    fs::write(
        &app_toml,
        r#"[package]
name = "app"
version = "1.0.0"

[dependencies]
renamed-core = { workspace = true }
"#,
    )
    .unwrap();

    let mut finder = Finder::new();
    finder
        .visit(&app_toml, rel("crates/app/Cargo.toml"))
        .unwrap();
    finder
        .visit(&workspace_toml, rel("Cargo.toml"))
        .unwrap();
    finder
        .visit(&core_toml, rel("crates/core/Cargo.toml"))
        .unwrap();

    let projects = finder.projects();
    let app = projects
        .iter()
        .find(|project| project.name() == Some("app"))
        .unwrap();
    assert!(app.dependencies().contains("core"));
    assert!(!app.dependencies().contains("renamed-core"));


    let mut update_map = UpdateMap::new();
    update_map.insert_new(
        "crates/core/Cargo.toml".to_string(),
        UpdateType::Minor,
        vec![ChangePackResultLog::new(UpdateType::Minor, "Update core".to_string())],
    );
    apply_reverse_dependencies(&mut update_map, &projects, temp_dir.path().as_path())
        .unwrap();
    assert_eq!(
        update_map.get("crates/app/Cargo.toml").unwrap().update_type,
        UpdateType::Patch
    );

    temp_dir.close().unwrap();
}

#[test]
fn test_rust_project_finder_does_not_resolve_alias_above_repository_boundary() {
    let temp_dir = TempDir::new().unwrap();
    let repo_dir = temp_dir.path().join("repo");
    fs::create_dir_all(&repo_dir).unwrap();

    fs::write(
        temp_dir.path().join("Cargo.toml"),
        r#"[workspace]
members = ["repo"]

[workspace.dependencies]
renamed-core = { package = "core", path = "outside-core" }
"#,
    )
    .unwrap();
    let member_toml = repo_dir.join("Cargo.toml");
    fs::write(
        &member_toml,
        r#"[package]
name = "app"
version = "1.0.0"

[dependencies]
renamed-core = { workspace = true }
"#,
    )
    .unwrap();

    let mut finder = Finder::new();
    finder
        .visit(&member_toml, rel("Cargo.toml"))
        .unwrap();

    let projects = finder.projects();
    let app = projects
        .iter()
        .find(|project| project.name() == Some("app"))
        .unwrap();
    assert!(app.dependencies().contains("renamed-core"));
    assert!(!app.dependencies().contains("core"));

    temp_dir.close().unwrap();
}

fn dependency_names_of(manifest: &str) -> Vec<String> {
    let temp_dir = TempDir::new().unwrap();
    let cargo_toml = temp_dir.path().join("Cargo.toml");
    fs::write(&cargo_toml, manifest).unwrap();

    let mut finder = Finder::new();
    finder
        .visit(&cargo_toml, &text("Cargo.toml"))
        .unwrap();

    let projects = finder.projects();
    assert_eq!(projects.len(), 1);
    let mut names: Vec<String> = projects[0]
        .expect_package()
        .dependencies()
        .iter()
        .cloned()
        .collect();
    names.sort_unstable();

    temp_dir.close().unwrap();
    names
}

fn member_dependency_names_of(root: &str, member: &str) -> Vec<String> {
    let temp_dir = TempDir::new().unwrap();
    let member_dir = temp_dir.path().join("crates").join("member");
        fs::create_dir_all(&member_dir).unwrap();
        fs::write(temp_dir.path().join("Cargo.toml"), root).unwrap();
    let member_manifest = member_dir.join("Cargo.toml");
    fs::write(&member_manifest, member).unwrap();

    let mut finder = Finder::new();
    finder
        .visit(&member_manifest, rel("crates/member/Cargo.toml"))
        .unwrap();
    finder.finalize().unwrap();

    let projects = finder.projects();
    let member_project = projects
        .iter()
        .find(|project| project.name() == Some("member"))
            .expect("the member must be discovered");
    let mut names: Vec<String> = member_project.dependencies().iter().cloned().collect();
    names.sort_unstable();

    temp_dir.close().unwrap();
    names
}

#[test]
fn test_rust_project_finder_visit_package_with_workspace_dependencies_from_all_cargo_sections()
 {
    let deps = dependency_names_of(
        r#"[package]
name = "test-package"
version = "1.0.0"

[dependencies]
runtime-core = { workspace = true }
external = "1.0"

[dev-dependencies]
test-support = { path = "../test-support", version = "1.0" }
tempfile = "3"

[build-dependencies]
build-helper = { workspace = true }
cc = "1"

[target.'cfg(unix)'.dependencies]
unix-support = { workspace = true }
libc = "0.2"

[target.'cfg(windows)'.dev-dependencies]
windows-test-support = { path = "../windows-test-support", version = "1.0" }

[target.'cfg(target_arch = "wasm32")'.build-dependencies]
wasm-build-helper = { workspace = true }
"#,
    );

    assert_eq!(
        deps,
        vec![
            "build-helper",
                "runtime-core",
            "test-support",
            "unix-support",
            "wasm-build-helper",
                "windows-test-support",
        ]
    );
}

#[test]
fn test_rust_project_finder_omits_versionless_dev_dependencies() {
    let deps = dependency_names_of(
        r#"[package]
name = "test-package"
version = "1.0.0"

[dependencies]
runtime-core = { path = "../runtime-core", version = "1.0" }

[dev-dependencies]
dev-only = { path = "../dev-only" }
test-package = { path = ".", features = ["test-support"] }

[target.'cfg(windows)'.dev-dependencies]
windows-dev-only = { path = "../windows-dev-only" }
"#,
    );

    assert_eq!(deps, vec!["runtime-core"]);
}

#[test]
fn test_rust_project_finder_keeps_versionless_path_dependencies_in_published_tables() {
    let deps = dependency_names_of(
        r#"[package]
name = "test-package"
version = "1.0.0"

[dependencies]
runtime-core = { path = "../runtime-core" }

[build-dependencies]
build-helper = { path = "../build-helper" }

[target.'cfg(unix)'.dependencies]
unix-support = { path = "../unix-support" }

[target.'cfg(unix)'.build-dependencies]
unix-build-helper = { path = "../unix-build-helper" }
"#,
    );

    assert_eq!(
        deps,
        vec![
            "build-helper",
                "runtime-core",
            "unix-build-helper",
                "unix-support",
        ]
    );
}

#[test]
fn test_rust_project_finder_versioned_dev_dependency_resolves_package_alias() {
    let deps = dependency_names_of(
        r#"[package]
name = "test-package"
version = "1.0.0"

[dev-dependencies]
alias = { path = "../real", version = "1.0", package = "real-name" }
versionless-alias = { path = "../other", package = "other-name" }
"#,
    );

    assert_eq!(deps, vec!["real-name"]);
}

#[test]
fn test_rust_project_finder_dev_workspace_inheritance_follows_the_root_version() {
    let deps = member_dependency_names_of(
        r#"[workspace]
members = ["crates/member"]

[workspace.package]
version = "1.0.0"

[workspace.dependencies]
versioned-dep = { path = "crates/versioned-dep", version = "1.0" }
scalar-dep = "1"
pathonly-dep = { path = "crates/pathonly-dep" }
"#,
        r#"[package]
name = "member"
version = "0.1.0"

[dev-dependencies]
versioned-dep = { workspace = true }
scalar-dep = { workspace = true }
pathonly-dep = { workspace = true }
"#,
    );

    assert_eq!(deps, vec!["scalar-dep", "versioned-dep"]);
}

#[test]
fn test_rust_project_finder_published_workspace_inheritance_ignores_the_root_version() {
    let deps = member_dependency_names_of(
        r#"[workspace]
members = ["crates/member"]

[workspace.package]
version = "1.0.0"

[workspace.dependencies]
pathonly-dep = { path = "crates/pathonly-dep" }
"#,
        r#"[package]
name = "member"
version = "0.1.0"

[dependencies]
pathonly-dep = { workspace = true }
"#,
    );

    assert_eq!(deps, vec!["pathonly-dep"]);
}

#[test]
fn test_rust_project_finder_hybrid_root_uses_its_own_workspace_dependencies() {
    let temp_dir = TempDir::new().unwrap();
    let inner_dir = temp_dir.path().join("inner");
        fs::create_dir_all(&inner_dir).unwrap();
        fs::write(
            temp_dir.path().join("Cargo.toml"),
        r#"[workspace]
members = ["inner"]

[workspace.package]
version = "9.9.9"

[workspace.dependencies]
shared = { path = "shared", version = "1.0" }
"#,
    )
    .unwrap();
    let inner_manifest = inner_dir.join("Cargo.toml");
    fs::write(
        &inner_manifest,
        r#"[package]
name = "inner"
version = "0.1.0"

[workspace]
members = []

[workspace.package]
version = "0.1.0"

[workspace.dependencies]
shared = { path = "../shared" }

[dev-dependencies]
shared = { workspace = true }
"#,
    )
    .unwrap();

    let mut finder = Finder::new();
    finder
        .visit(&temp_dir.path().join("Cargo.toml"), rel("Cargo.toml"))
        .unwrap();
    finder
        .visit(&inner_manifest, rel("inner/Cargo.toml"))
        .unwrap();
    finder.finalize().unwrap();

    let projects = finder.projects();
    let inner = projects
        .iter()
        .find(|project| project.name() == Some("inner"))
            .expect("the hybrid root must be discovered");
    assert!(
        inner.dependencies().is_empty(),
        "the parent's versioned `shared` must not rescue the hybrid root's \
         path-only one, got {:?}",
        inner.dependencies()
    );

    temp_dir.close().unwrap();
}

#[test]
fn test_rust_project_finder_sibling_workspaces_do_not_share_versioned_classifications() {
    let temp_dir = TempDir::new().unwrap();
    let mut finder = Finder::new();
    for (workspace, root_shared) in [
        (
            "alpha",
            r#"shared = { path = "../shared", version = "1.0" }"#,
        ),
        ("beta", r#"shared = { path = "../shared" }"#),
    ] {
        let member_dir = temp_dir.path().join(workspace).join("member");
            fs::create_dir_all(&member_dir).unwrap();
            fs::write(
                temp_dir.path().join(workspace).join("Cargo.toml"),
            format!(
                "[workspace]\nmembers = [\"member\"]\n\n[workspace.package]\nversion = \"1.0.0\"\n\n[workspace.dependencies]\n{root_shared}\n"
            ),
        )
        .unwrap();
        fs::write(
            member_dir.join("Cargo.toml"),
            format!(
                "[package]\nname = \"{workspace}-member\"\nversion = \"0.1.0\"\n\n[dev-dependencies]\nshared = {{ workspace = true }}\n"
            ),
        )
        .unwrap();
        finder
            .visit(
                &member_dir.join("Cargo.toml"),
                rel(&format!("{workspace}/member/Cargo.toml")),
            )
            .unwrap();
    }
    finder.finalize().unwrap();

    let projects = finder.projects();
    let deps_of = |name: &str| {
        projects
            .iter()
            .find(|project| project.name() == Some(name))
            .unwrap_or_else(|| panic!("{name} must be discovered"))
            .dependencies()
            .clone()
    };
    assert!(deps_of("alpha-member").contains("shared"));
    assert!(deps_of("beta-member").is_empty());

        temp_dir.close().unwrap();
    }

    /// The exact shape that aborted this repository's own release: `utils` and
    /// `cli` reach `node` / themselves only through path-only dev-dependencies,
    /// while `node --> utils` is a real `[dependencies]` edge. Only the real
    /// edge may survive, otherwise the publish batch is a cycle.
    #[test]
    fn test_rust_project_finder_reproduces_the_changepacks_release_graph() {
        let temp_dir = TempDir::new().unwrap();
        fs::write(
            temp_dir.path().join("Cargo.toml"),
        r#"[workspace]
members = ["crates/*"]

[workspace.package]
version = "0.3.0"

[workspace.dependencies]
changepacks-node = { path = "crates/node", version = "^0.3.0" }
changepacks-utils = { path = "crates/utils", version = "^0.3.0" }
"#,
    )
    .unwrap();
    let manifests = [
        (
            "utils",
            r#"[package]
name = "changepacks-utils"
version = "0.3.0"

[dev-dependencies]
changepacks-node = { path = "../node" }
"#,
        ),
        (
            "node",
            r#"[package]
name = "changepacks-node"
version = "0.3.0"

[dependencies]
changepacks-utils.workspace = true
"#,
        ),
        (
            "cli",
            r#"[package]
name = "changepacks-cli"
version = "0.3.0"

[dependencies]
changepacks-node.workspace = true
changepacks-utils.workspace = true

[dev-dependencies]
changepacks-cli = { path = ".", features = ["test-support"] }
"#,
        ),
    ];
    let mut finder = Finder::new();
    for (crate_name, manifest) in manifests {
        let crate_dir = temp_dir.path().join("crates").join(crate_name);
        fs::create_dir_all(&crate_dir).unwrap();
        fs::write(crate_dir.join("Cargo.toml"), manifest).unwrap();
        finder
            .visit(
                &crate_dir.join("Cargo.toml"),
                rel(&format!("crates/{crate_name}/Cargo.toml")),
            )
            .unwrap();
    }
    finder.finalize().unwrap();

    let projects = finder.projects();
    let deps_of = |name: &str| {
        let mut names: Vec<String> = projects
            .iter()
            .find(|project| project.name() == Some(name))
            .unwrap_or_else(|| panic!("{name} must be discovered"))
            .dependencies()
            .iter()
            .cloned()
            .collect();
        names.sort_unstable();
        names
    };
    assert!(
        deps_of("changepacks-utils").is_empty(),
        "the path-only dev edge to node must be gone"
    );
    assert_eq!(deps_of("changepacks-node"), vec!["changepacks-utils"]);
    assert_eq!(
        deps_of("changepacks-cli"),
        vec!["changepacks-node", "changepacks-utils"],
        "the self dev edge must be gone"
    );

    temp_dir.close().unwrap();
}

#[test]
fn test_rust_project_finder_isolates_sibling_workspaces_during_interleaved_visits() {
    let temp_dir = TempDir::new().unwrap();
    let (alpha_workspace, alpha_package) = write_inherited_version_workspace(
        &temp_dir.path().join("alpha"),
        "alpha-package",
        "1.2.3",
    );
    let (beta_workspace, beta_package) = write_inherited_version_workspace(
        &temp_dir.path().join("beta"),
        "beta-package",
        "4.5.6",
    );

    let mut finder = Finder::new();
    finder
        .visit(
            &alpha_package,
            rel("alpha/crates/alpha-package/Cargo.toml"),
        )
        .unwrap();
    finder
        .visit(&beta_workspace, rel("beta/Cargo.toml"))
        .unwrap();
    finder
        .visit(
            &beta_package,
            rel("beta/crates/beta-package/Cargo.toml"),
        )
        .unwrap();
    finder
        .visit(&alpha_workspace, rel("alpha/Cargo.toml"))
        .unwrap();
    finder.finalize().unwrap();

    let projects = finder.projects();
    for (name, version, workspace_root) in [
        ("alpha-package", "1.2.3", &alpha_workspace),
        ("beta-package", "4.5.6", &beta_workspace),
    ] {
        let package = projects
            .iter()
            .copied()
            .find(|project| project.name() == Some(name))
            .unwrap();
        assert_eq!(package.version(), Some(version));
        assert_eq!(
            package.expect_package().workspace_root_path(),
            Some(workspace_root.as_path())
        );
    }
}

#[test]
fn test_rust_project_finder_finalize_discovers_each_unvisited_sibling_workspace() {
    let temp_dir = TempDir::new().unwrap();
    let (alpha_workspace, alpha_package) = write_inherited_version_workspace(
        &temp_dir.path().join("alpha"),
        "alpha-package",
        "1.2.3",
    );
    let (beta_workspace, beta_package) = write_inherited_version_workspace(
        &temp_dir.path().join("beta"),
        "beta-package",
        "4.5.6",
    );

    let mut finder = Finder::new();
    finder
        .visit(
            &alpha_package,
            rel("alpha/crates/alpha-package/Cargo.toml"),
        )
        .unwrap();
    finder
        .visit(
            &beta_package,
            rel("beta/crates/beta-package/Cargo.toml"),
        )
        .unwrap();
    finder.finalize().unwrap();

    let projects = finder.projects();
    for (name, version, workspace_root) in [
        ("alpha-package", "1.2.3", &alpha_workspace),
        ("beta-package", "4.5.6", &beta_workspace),
    ] {
        let package = projects
            .iter()
            .copied()
            .find(|project| project.name() == Some(name))
            .unwrap();
        assert_eq!(package.version(), Some(version));
        assert_eq!(
            package.expect_package().workspace_root_path(),
            Some(workspace_root.as_path())
        );
    }
}

#[test]
fn test_rust_project_finder_virtual_workspace_with_workspace_version() {
    let temp_dir = TempDir::new().unwrap();

    let workspace_toml = temp_dir.path().join("Cargo.toml");
    fs::write(
        &workspace_toml,
        r#"[workspace]
resolver = "2"
members = ["crates/*"]

[workspace.package]
version = "0.1.33"
edition = "2024"
"#,
    )
    .unwrap();

    let pkg_dir = temp_dir.path().join("crates").join("vespera");
    fs::create_dir_all(&pkg_dir).unwrap();
    let pkg_toml = pkg_dir.join("Cargo.toml");
    fs::write(
        &pkg_toml,
        r#"[package]
name = "vespera"
version.workspace = true
edition.workspace = true

[dependencies]
vespera_core = { workspace = true }

[lints]
workspace = true
"#,
    )
    .unwrap();

    let mut finder = Finder::new();
    finder
        .visit(&workspace_toml, &text("Cargo.toml"))
        .unwrap();
    finder
        .visit(&pkg_toml, &text("crates/vespera/Cargo.toml"))
        .unwrap();
    finder.finalize().unwrap();

    let projects = finder.projects();
    assert_eq!(projects.len(), 2);

    let pkg = projects
        .iter()
        .find(|p| p.name() == Some("vespera"))
        .unwrap();
    assert_eq!(pkg.version(), Some("0.1.33"));
}

#[test]
fn test_rust_project_finder_visit_package_with_workspace_version() {
    let temp_dir = TempDir::new().unwrap();

    let workspace_toml = temp_dir.path().join("Cargo.toml");
    fs::write(
        &workspace_toml,
        r#"[workspace]
members = ["crates/*"]

[workspace.package]
version = "2.5.0"
edition = "2024"

[package]
name = "my-workspace"
version = "2.5.0"
"#,
    )
    .unwrap();

    let pkg_dir = temp_dir.path().join("crates").join("my-crate");
    fs::create_dir_all(&pkg_dir).unwrap();
    let pkg_toml = pkg_dir.join("Cargo.toml");
    fs::write(
        &pkg_toml,
        r#"[package]
name = "my-crate"
version.workspace = true
edition.workspace = true
"#,
    )
    .unwrap();

    let mut finder = Finder::new();
    finder
        .visit(&workspace_toml, &text("Cargo.toml"))
        .unwrap();
    finder
        .visit(&pkg_toml, &text("crates/my-crate/Cargo.toml"))
        .unwrap();
    finder.finalize().unwrap();

    let projects = finder.projects();
    assert_eq!(projects.len(), 2);

    let pkg = projects
        .iter()
        .find(|p| p.name() == Some("my-crate"))
        .unwrap();
    assert_eq!(pkg.version(), Some("2.5.0")); // Should inherit workspace version
}

#[test]
fn test_rust_project_finder_visit_package_before_workspace() {
    let temp_dir = TempDir::new().unwrap();

    let workspace_toml = temp_dir.path().join("Cargo.toml");
    fs::write(
        &workspace_toml,
        r#"[workspace]
members = ["crates/*"]

[workspace.package]
version = "3.0.0"

[package]
name = "my-workspace"
version = "3.0.0"
"#,
    )
    .unwrap();

    let pkg_dir = temp_dir.path().join("crates").join("my-crate");
    fs::create_dir_all(&pkg_dir).unwrap();
    let pkg_toml = pkg_dir.join("Cargo.toml");
    fs::write(
        &pkg_toml,
        r#"[package]
name = "my-crate"
version.workspace = true
"#,
    )
    .unwrap();

    let mut finder = Finder::new();
    finder
        .visit(&pkg_toml, &text("crates/my-crate/Cargo.toml"))
        .unwrap();
    finder
        .visit(&workspace_toml, &text("Cargo.toml"))
        .unwrap();
    finder.finalize().unwrap();

    let projects = finder.projects();
    assert_eq!(projects.len(), 2);

    let pkg = projects
        .iter()
        .find(|p| p.name() == Some("my-crate"))
        .unwrap();
    assert_eq!(pkg.version(), Some("3.0.0")); // Should still resolve correctly
}

#[test]
fn test_rust_project_finder_workspace_ignored_by_config() {
    let temp_dir = TempDir::new().unwrap();

    let workspace_toml = temp_dir.path().join("Cargo.toml");
    fs::write(
        &workspace_toml,
        r#"[workspace]
resolver = "2"
members = ["crates/*"]

[workspace.package]
version = "0.1.33"
edition = "2024"
"#,
    )
    .unwrap();

    for name in ["vespera", "vespera_core"] {
        let pkg_dir = temp_dir.path().join("crates").join(name);
        fs::create_dir_all(&pkg_dir).unwrap();
        fs::write(
            pkg_dir.join("Cargo.toml"),
            format!(
                r#"[package]
name = "{name}"
version.workspace = true
edition.workspace = true

[lints]
workspace = true
"#
            ),
        )
        .unwrap();
    }

    let mut finder = Finder::new();
    for name in ["vespera", "vespera_core"] {
        let pkg_toml = temp_dir.path().join("crates").join(name).join("Cargo.toml");
        finder
            .visit(
                &pkg_toml,
                &text(format!("crates/{name}/Cargo.toml")),
            )
            .unwrap();
    }
    finder.finalize().unwrap();

    let projects = finder.projects();
    assert_eq!(projects.len(), 3);

    for name in ["vespera", "vespera_core"] {
        let pkg = projects.iter().find(|p| p.name() == Some(name)).unwrap();
        assert_eq!(
            pkg.version(),
            Some("0.1.33"),
            "{name} should inherit workspace version"
        );
    }

    let ws = projects
        .iter()
        .find(|p| matches!(p, Project::Workspace(_)))
        .expect("synthetic workspace should be created");
    assert_eq!(ws.version(), Some("0.1.33"));
    assert_eq!(ws.relative_path(), rel("Cargo.toml"));
}

#[test]
fn test_rust_project_finder_finalize_discovers_workspace_with_package_section() {
    let temp_dir = TempDir::new().unwrap();

    let workspace_toml = temp_dir.path().join("Cargo.toml");
    fs::write(
        &workspace_toml,
        r#"[workspace]
resolver = "2"
members = ["crates/*"]

[workspace.package]
version = "0.2.0"

[package]
name = "my-workspace-root"
version = "0.2.0"
"#,
    )
    .unwrap();

    let pkg_dir = temp_dir.path().join("crates").join("my-crate");
    fs::create_dir_all(&pkg_dir).unwrap();
    fs::write(
        pkg_dir.join("Cargo.toml"),
        r#"[package]
name = "my-crate"
version.workspace = true
"#,
    )
    .unwrap();

    let mut finder = Finder::new();
    let pkg_toml = pkg_dir.join("Cargo.toml");
    finder
        .visit(&pkg_toml, &text("crates/my-crate/Cargo.toml"))
        .unwrap();
    finder.finalize().unwrap();

    let projects = finder.projects();
    assert_eq!(projects.len(), 2);

    let ws = projects
        .iter()
        .find(|p| matches!(p, Project::Workspace(_)))
        .unwrap();
    assert_eq!(ws.name(), Some("my-workspace-root"));
    assert_eq!(ws.version(), Some("0.2.0"));

    let pkg = projects
        .iter()
        .find(|p| p.name() == Some("my-crate"))
        .unwrap();
    assert_eq!(pkg.version(), Some("0.2.0"));
}

#[test]
fn test_rust_project_finder_finalize_resolves_sibling_members_through_rejected_ancestor()
{
    let temp_dir = TempDir::new().unwrap();

    let workspace_toml = temp_dir.path().join("Cargo.toml");
    fs::write(
        &workspace_toml,
        r#"[workspace]
members = ["crates/*/*"]

[workspace.package]
version = "0.3.0"
"#,
    )
    .unwrap();

    let intermediate_dir = temp_dir.path().join("crates");
    fs::create_dir_all(&intermediate_dir).unwrap();
    fs::write(
        intermediate_dir.join("Cargo.toml"),
        r"[workspace]
members = []
",
    )
    .unwrap();

    let mut member_tomls = Vec::new();
    for name in ["app", "cli"] {
        let member_dir = intermediate_dir.join(name).join("inner");
            fs::create_dir_all(&member_dir).unwrap();
            let member_toml = member_dir.join("Cargo.toml");
        fs::write(
            &member_toml,
            format!("[package]\nname = \"{name}\"\nversion.workspace = true\n"),
        )
        .unwrap();
        member_tomls.push((name, member_toml));
    }

    let mut finder = Finder::new();
    for (name, member_toml) in &member_tomls {
        finder
            .visit(
                member_toml,
                rel(&format!("crates/{name}/inner/Cargo.toml")),
            )
            .unwrap();
    }
    finder.finalize().unwrap();

    assert_eq!(
        finder.workspace_package_versions.entries.len(),
        1,
        "only the root carrying [workspace.package].version may be recorded"
    );
    assert_eq!(
        finder
            .workspace_package_versions
            .get(workspace_toml.as_path())
            .map(|root| root.version.as_str()),
        Some("0.3.0")
    );

    let projects = finder.projects();
    assert_eq!(projects.len(), 3, "two members plus one synthetic root");

    let workspaces = projects
        .iter()
        .filter(|project| matches!(project, Project::Workspace(_)))
        .collect::<Vec<_>>();
    assert_eq!(
        workspaces.len(),
        1,
        "both siblings must share one discovered workspace root"
    );
    assert_eq!(workspaces[0].path(), workspace_toml.as_path());
    assert_eq!(workspaces[0].version(), Some("0.3.0"));

    for name in ["app", "cli"] {
        let member = projects
            .iter()
            .find(|project| project.name() == Some(name))
            .unwrap_or_else(|| panic!("{name} should be discovered"));
        assert_eq!(
            member.version(),
            Some("0.3.0"),
            "{name} should inherit the workspace version"
        );
    }

    temp_dir.close().unwrap();
}

#[test]
fn test_rust_project_finder_finalize_ignores_cargo_toml_above_git_root() {
    let temp_dir = TempDir::new().unwrap();

    fs::write(
        temp_dir.path().join("Cargo.toml"),
        r#"[workspace]
members = ["repo/crates/*"]

[workspace.package]
version = "9.9.9"
edition = "2024"
"#,
    )
    .unwrap();

    let member_dir = temp_dir.path().join("repo").join("crates").join("mycrate");
    fs::create_dir_all(&member_dir).unwrap();
    let member_toml = member_dir.join("Cargo.toml");
    fs::write(
        &member_toml,
        r#"[package]
name = "mycrate"
version.workspace = true
edition.workspace = true
"#,
    )
    .unwrap();

    let mut finder = Finder::new();
    finder
        .visit(&member_toml, &text("crates/mycrate/Cargo.toml"))
        .unwrap();
    finder.finalize().unwrap();

    let projects = finder.projects();
    assert_eq!(
        projects.len(),
        1,
        "a Cargo.toml above the git root must not be adopted as the workspace"
    );
    assert!(
        !projects.iter().any(|p| matches!(p, Project::Workspace(_))),
        "no synthetic workspace should be created from an out-of-repo Cargo.toml"
    );

    let pkg = projects
        .iter()
        .find(|p| p.name() == Some("mycrate"))
        .expect("member package should exist");
    assert_ne!(
        pkg.version(),
        Some("9.9.9"),
        "member must not inherit the decoy workspace version from above the repo root"
    );
    assert_eq!(
        pkg.version(),
        None,
        "with no in-repo workspace root found, the member version stays unresolved"
    );

    temp_dir.close().unwrap();
}

#[test]
fn test_rust_project_finder_visit_reports_malformed_ancestor_cargo_toml() {
    let temp_dir = TempDir::new().unwrap();
    let repository_root = temp_dir.path().join("repo");
    let member_dir = repository_root.join("crates").join("app");
    fs::create_dir_all(&member_dir).unwrap();

    let malformed_ancestor = repository_root.join("crates").join("Cargo.toml");
    fs::write(&malformed_ancestor, "invalid toml [[[").unwrap();
    let member_toml = member_dir.join("Cargo.toml");
    fs::write(
        &member_toml,
        r#"[package]
name = "app"
version = "1.0.0"
"#,
    )
    .unwrap();

    let mut finder = Finder::new();
    let error = finder
        .visit(&member_toml, rel("crates/app/Cargo.toml"))
        .expect_err("a malformed ancestor manifest must fail alias discovery");
    let message = error.message();
    assert!(message.contains("Failed to parse Cargo.toml"));
    assert!(message.contains(malformed_ancestor.as_path()));
}

#[test]
fn test_rust_project_finder_visit_reports_ancestor_cargo_toml_read_failure() {
    let temp_dir = TempDir::new().unwrap();
    let repository_root = temp_dir.path().join("repo");
    let member_dir = repository_root.join("crates").join("app");
    fs::create_dir_all(&member_dir).unwrap();

    let unreadable_ancestor = repository_root.join("crates").join("Cargo.toml");
    fs::create_dir(&unreadable_ancestor).unwrap();
    let member_toml = member_dir.join("Cargo.toml");
    fs::write(
        &member_toml,
        r#"[package]
name = "app"
version = "1.0.0"
"#,
    )
    .unwrap();

    let mut finder = Finder::new();
    let error = finder
        .visit(&member_toml, rel("crates/app/Cargo.toml"))
        .expect_err("an unreadable ancestor candidate must fail alias discovery");
    let message = error.message();
    assert!(message.contains("Failed to read Cargo.toml"));
    assert!(message.contains(unreadable_ancestor.as_path()));
}

#[test]
fn test_rust_project_finder_uses_nearest_valid_nested_workspace() {
    let temp_dir = TempDir::new().unwrap();
    let nested_root = temp_dir.path().join("nested");
    let member_dir = nested_root.join("crates").join("app");
    fs::create_dir_all(&member_dir).unwrap();

    fs::write(
        temp_dir.path().join("Cargo.toml"),
        r#"[workspace]
members = ["nested"]

[workspace.dependencies]
shared = { package = "outer-core", path = "outer-core" }
"#,
    )
    .unwrap();
    fs::write(
        nested_root.join("Cargo.toml"),
        r#"[workspace]
members = ["crates/*"]

[workspace.dependencies]
shared = { package = "nested-core", path = "crates/core" }
"#,
    )
    .unwrap();
    let member_toml = member_dir.join("Cargo.toml");
    fs::write(
        &member_toml,
        r#"[package]
name = "app"
version = "1.0.0"

[dependencies]
shared = { workspace = true }
"#,
    )
    .unwrap();

    let mut finder = Finder::new();
    finder
        .visit(&member_toml, rel("nested/crates/app/Cargo.toml"))
        .unwrap();

    let app = finder
        .projects()
        .into_iter()
        .find(|project| project.name() == Some("app"))
        .unwrap();
    assert!(app.dependencies().contains("nested-core"));
    assert!(!app.dependencies().contains("outer-core"));
}

#[test]
fn test_rust_project_finder_reuses_non_workspace_manifest_cache_for_siblings() {
    let temp_dir = TempDir::new().unwrap();
    let intermediate = temp_dir.path().join("tools");
    let app_dir = intermediate.join("crates/app");
    let cli_dir = intermediate.join("crates/cli");
    fs::create_dir_all(&app_dir).unwrap();
    fs::create_dir_all(&cli_dir).unwrap();

    fs::write(
        temp_dir.path().join("Cargo.toml"),
        r#"[workspace]
members = ["tools/crates/*"]

[workspace.dependencies]
shared = { package = "core", path = "core" }
"#,
    )
    .unwrap();
    let intermediate_toml = intermediate.join("Cargo.toml");
    fs::write(
        &intermediate_toml,
        "[package]\nname = \"tools\"\nversion = \"1.0.0\"\n",
    )
    .unwrap();
    let app_toml = app_dir.join("Cargo.toml");
    let cli_toml = cli_dir.join("Cargo.toml");
    for (name, manifest) in [("app", &app_toml), ("cli", &cli_toml)] {
        fs::write(
            manifest,
            format!(
                "[package]\nname = \"{name}\"\nversion = \"1.0.0\"\n\n[dependencies]\nshared = {{ workspace = true }}\n"
            ),
        )
        .unwrap();
    }

    let mut finder = Finder::new();
    finder
        .visit(&app_toml, rel("tools/crates/app/Cargo.toml"))
        .unwrap();
    let missing_candidate = intermediate.join("crates/Cargo.toml");
    assert!(
        finder
            .non_workspace_manifest_candidates
            .contains(missing_candidate.as_path())
    );
    assert!(
        finder
            .non_workspace_manifest_candidates
            .contains(intermediate_toml.as_path())
    );
    fs::write(&intermediate_toml, "invalid toml [[[").unwrap();
    finder
        .visit(&cli_toml, rel("tools/crates/cli/Cargo.toml"))
        .unwrap();

    for name in ["app", "cli"] {
        let project = finder
            .projects()
            .into_iter()
            .find(|project| project.name() == Some(name))
            .unwrap();
        assert!(project.dependencies().contains("core"));
        assert!(!project.dependencies().contains("shared"));
    }
}

#[test]
fn test_rust_project_finder_finalize_reports_malformed_ancestor_cargo_toml() {
    let temp_dir = TempDir::new().unwrap();
    let repository_root = temp_dir.path().join("repo");
    let member_dir = repository_root.join("crates").join("app");
    fs::create_dir_all(&member_dir).unwrap();

    let ancestor_manifest = repository_root.join("crates").join("Cargo.toml");
    fs::write(
        &ancestor_manifest,
        r#"[package]
name = "container"
version = "1.0.0"
"#,
    )
    .unwrap();
    let member_toml = member_dir.join("Cargo.toml");
    fs::write(
        &member_toml,
        r#"[package]
name = "app"
version.workspace = true
"#,
    )
    .unwrap();

    let mut finder = Finder::new();
    finder
        .visit(&member_toml, rel("crates/app/Cargo.toml"))
        .unwrap();

    fs::write(&ancestor_manifest, "invalid toml [[[").unwrap();
    let error = finder
        .finalize()
        .expect_err("a malformed ancestor manifest must fail version discovery");
    let message = error.message();
    assert!(message.contains("Failed to parse Cargo.toml"));
    assert!(message.contains(ancestor_manifest.as_path()));
    assert!(finder.projects().is_empty());
}

#[test]
fn test_rust_project_finder_finalize_reports_ancestor_cargo_toml_read_failure() {
    let temp_dir = TempDir::new().unwrap();
    let repository_root = temp_dir.path().join("repo");
    let member_dir = repository_root.join("crates").join("app");
    fs::create_dir_all(&member_dir).unwrap();

    let ancestor_manifest = repository_root.join("crates").join("Cargo.toml");
    fs::write(
        &ancestor_manifest,
        r#"[package]
name = "container"
version = "1.0.0"
"#,
    )
    .unwrap();
    let member_toml = member_dir.join("Cargo.toml");
    fs::write(
        &member_toml,
        r#"[package]
name = "app"
version.workspace = true
"#,
    )
    .unwrap();

    let mut finder = Finder::new();
    finder
        .visit(&member_toml, rel("crates/app/Cargo.toml"))
        .unwrap();

    fs::remove_file(&ancestor_manifest).unwrap();
    fs::create_dir(&ancestor_manifest).unwrap();
    let error = finder
        .finalize()
        .expect_err("an unreadable ancestor candidate must fail version discovery");
    let message = error.message();
    assert!(message.contains("Failed to read Cargo.toml"));
    assert!(message.contains(ancestor_manifest.as_path()));
    assert!(finder.projects().is_empty());
}

#[test]
fn test_workspace_version_bump_only_fans_out_to_inheriting_members() {
    let temp_dir = TempDir::new().unwrap();
    let workspace_toml = temp_dir.path().join("Cargo.toml");
    fs::write(
        &workspace_toml,
        r#"[workspace]
members = ["crates/*"]

[workspace.package]
version = "1.2.3"

[workspace.dependencies]
inline-inherited = { path = "crates/inline-inherited", version = "1.2.3" }
fixed-member = { path = "crates/fixed-member", version = "1.2.3" } # fixed bytes stay unchanged

[workspace.dependencies.subtable-inherited]
path = "crates/subtable-inherited"
version = "1.2.3"
features = ["derive"]
"#,
    )
    .unwrap();

    let members = [
        ("inline-inherited", "version.workspace = true"),
        ("subtable-inherited", "version = { workspace = true }"),
        ("fixed-member", "version = \"1.2.3\""),
    ];
    let mut member_tomls = Vec::new();
    for (name, version) in members {
        let member_dir = temp_dir.path().join("crates").join(name);
        fs::create_dir_all(&member_dir).unwrap();
        let member_toml = member_dir.join("Cargo.toml");
        fs::write(
            &member_toml,
            format!("[package]\nname = \"{name}\"\n{version}\n"),
        )
        .unwrap();
        member_tomls.push((name, member_toml));
    }

    let mut finder = Finder::new();
    finder
        .visit(&workspace_toml, rel("Cargo.toml"))
        .unwrap();
    for (name, member_toml) in &member_tomls {
        finder
            .visit(member_toml, rel(&format!("crates/{name}/Cargo.toml")))
            .unwrap();
    }
    finder.finalize().unwrap();

    let files = finder.files.clone();
    let workspace = finder
        .projects_mut()
        .into_iter()
        .find(|project| matches!(project, Project::Workspace(_)))
        .expect("workspace project should be discovered");
    bump(workspace, &files);

    let content = fs::read_to_string(&workspace_toml).unwrap();
    let document: toml_edit::DocumentMut = content.parse().unwrap();
    let dependencies = document["workspace"]["dependencies"].as_table().unwrap();
    assert_eq!(
        dependencies["inline-inherited"]["version"].as_str(),
        Some("1.2.4")
    );
    assert_eq!(
        dependencies["subtable-inherited"]["version"].as_str(),
        Some("1.2.4")
    );
    assert_eq!(
        dependencies["subtable-inherited"]["features"]
            .as_array()
            .map(toml_edit::Array::len),
        Some(1)
    );
    assert_eq!(
        dependencies["fixed-member"]["version"].as_str(),
        Some("1.2.3")
    );
    assert!(content.contains(
        "fixed-member = { path = \"crates/fixed-member\", version = \"1.2.3\" } # fixed bytes stay unchanged"
    ));
}

#[test]
fn test_workspace_version_bump_fanout_when_member_is_visited_first() {
    let temp_dir = TempDir::new().unwrap();
    let (workspace_toml, member_toml) =
        write_inherited_version_fanout_workspace(temp_dir.path(), "member-first", "1.0.0");
    let mut finder = Finder::new();
    finder
        .visit(&member_toml, rel("crates/member-first/Cargo.toml"))
        .unwrap();
    finder
        .visit(&workspace_toml, rel("Cargo.toml"))
        .unwrap();
    finder.finalize().unwrap();

    bump_workspace(&mut finder, rel("Cargo.toml"));

    let content = fs::read_to_string(&workspace_toml).unwrap();
    let document: toml_edit::DocumentMut = content.parse().unwrap();
    assert_eq!(
        document["workspace"]["dependencies"]["member-first"]["version"].as_str(),
        Some("1.0.1")
    );
}

#[test]
fn test_workspace_version_bump_fanout_when_root_is_visited_first() {
    let temp_dir = TempDir::new().unwrap();
    let (workspace_toml, member_toml) =
        write_inherited_version_fanout_workspace(temp_dir.path(), "root-first", "1.1.0");
    let mut finder = Finder::new();
    finder
        .visit(&workspace_toml, rel("Cargo.toml"))
        .unwrap();
    finder
        .visit(&member_toml, rel("crates/root-first/Cargo.toml"))
        .unwrap();
    finder.finalize().unwrap();

    bump_workspace(&mut finder, rel("Cargo.toml"));

    let content = fs::read_to_string(&workspace_toml).unwrap();
    let document: toml_edit::DocumentMut = content.parse().unwrap();
    assert_eq!(
        document["workspace"]["dependencies"]["root-first"]["version"].as_str(),
        Some("1.1.1")
    );
}

#[test]
fn test_workspace_version_bump_fanout_for_synthetic_ignored_root() {
    let temp_dir = TempDir::new().unwrap();
    let (workspace_toml, member_toml) =
        write_inherited_version_fanout_workspace(temp_dir.path(), "synthetic-member", "1.2.0");
    let mut finder = Finder::new();
    finder
        .visit(
            &member_toml,
            rel("crates/synthetic-member/Cargo.toml"),
        )
        .unwrap();
    finder.finalize().unwrap();

    bump_workspace(&mut finder, rel("Cargo.toml"));

    let content = fs::read_to_string(&workspace_toml).unwrap();
    let document: toml_edit::DocumentMut = content.parse().unwrap();
    assert_eq!(
        document["workspace"]["dependencies"]["synthetic-member"]["version"].as_str(),
        Some("1.2.1")
    );
}

#[test]
fn test_workspace_version_bump_fanout_uses_nearest_interleaved_nested_root() {
    let temp_dir = TempDir::new().unwrap();
    let (outer_workspace, outer_member) =
        write_inherited_version_fanout_workspace(temp_dir.path(), "outer-member", "3.0.0");
    let nested_root = temp_dir.path().join("nested");
    let (nested_workspace, nested_member) =
        write_inherited_version_fanout_workspace(&nested_root, "nested-member", "4.0.0");

    let mut finder = Finder::new();
    finder
        .visit(&outer_workspace, rel("Cargo.toml"))
        .unwrap();
    finder
        .visit(
            &nested_member,
            rel("nested/crates/nested-member/Cargo.toml"),
        )
        .unwrap();
    finder
        .visit(&outer_member, rel("crates/outer-member/Cargo.toml"))
        .unwrap();
    finder
        .visit(&nested_workspace, rel("nested/Cargo.toml"))
        .unwrap();
    finder.finalize().unwrap();

    bump_workspace(&mut finder, rel("Cargo.toml"));
    bump_workspace(&mut finder, rel("nested/Cargo.toml"));

    let outer_content = fs::read_to_string(&outer_workspace).unwrap();
    let outer_document: toml_edit::DocumentMut = outer_content.parse().unwrap();
    assert_eq!(
        outer_document["workspace"]["dependencies"]["outer-member"]["version"].as_str(),
        Some("3.0.1")
    );
    let nested_content = fs::read_to_string(&nested_workspace).unwrap();
    let nested_document: toml_edit::DocumentMut = nested_content.parse().unwrap();
    assert_eq!(
        nested_document["workspace"]["dependencies"]["nested-member"]["version"].as_str(),
        Some("4.0.1")
    );
}

#[test]
fn test_workspace_version_bump_handles_aliases_without_key_name_collisions() {
    let temp_dir = TempDir::new().unwrap();
    let workspace_toml = temp_dir.path().join("Cargo.toml");
    fs::write(
        &workspace_toml,
        r#"[workspace]
members = ["crates/*"]

[workspace.package]
version = "2.3.4"

[workspace.dependencies]
inline-core = { package = "core", path = "crates/core", version = "^2.3.4" }
core = { package = "fixed-real", path = "crates/fixed-real", version = "2.3.4" } # alias collision stays fixed

[workspace.dependencies.subtable-renamed]
package = "subtable-real"
path = "crates/subtable-real"
version = "~2.3.4"
"#,
    )
    .unwrap();

    let members = [
        ("core", "version.workspace = true"),
        ("subtable-real", "version = { workspace = true }"),
        ("fixed-real", "version = \"2.3.4\""),
    ];
    let mut member_tomls = Vec::new();
    for (name, version) in members {
        let member_dir = temp_dir.path().join("crates").join(name);
        fs::create_dir_all(&member_dir).unwrap();
        let member_toml = member_dir.join("Cargo.toml");
        fs::write(
            &member_toml,
            format!("[package]\nname = \"{name}\"\n{version}\n"),
        )
        .unwrap();
        member_tomls.push((name, member_toml));
    }

    let mut finder = Finder::new();
    finder
        .visit(&workspace_toml, rel("Cargo.toml"))
        .unwrap();
    for (name, member_toml) in &member_tomls {
        finder
            .visit(member_toml, rel(&format!("crates/{name}/Cargo.toml")))
            .unwrap();
    }
    finder.finalize().unwrap();

    bump_workspace(&mut finder, rel("Cargo.toml"));

    let content = fs::read_to_string(&workspace_toml).unwrap();
    let document: toml_edit::DocumentMut = content.parse().unwrap();
    let dependencies = document["workspace"]["dependencies"].as_table().unwrap();
    assert_eq!(
        dependencies["inline-core"]["version"].as_str(),
        Some("^2.3.5")
    );
    assert_eq!(
        dependencies["subtable-renamed"]["version"].as_str(),
        Some("~2.3.5")
    );
    assert_eq!(dependencies["core"]["version"].as_str(), Some("2.3.4"));
    assert!(content.contains(
        "core = { package = \"fixed-real\", path = \"crates/fixed-real\", version = \"2.3.4\" } # alias collision stays fixed"
    ));
    assert!(content.contains("[workspace.dependencies.subtable-renamed]"));
}

#[test]
fn test_rust_project_finder_visit_malformed_cargo_toml() {
    let temp_dir = TempDir::new().unwrap();
    let cargo_toml = temp_dir.path().join("Cargo.toml");
    fs::write(&cargo_toml, "invalid toml [[[").unwrap();

    let mut finder = Finder::new();
    let result = finder
        .visit(&cargo_toml, &text("Cargo.toml"));

    assert!(result.is_err());
    let err_msg = result.unwrap_err().message();
    assert!(
        err_msg.contains("Failed to parse Cargo.toml"),
        "error message should contain 'Failed to parse Cargo.toml', got: {err_msg}"
    );
    assert!(
        err_msg.contains(cargo_toml.as_path()),
        "error message should contain the manifest path, got: {err_msg}"
    );

    temp_dir.close().unwrap();
}

#[test]
fn test_rust_project_finder_skips_non_table_target_entry() {
    let (_temp_dir, finder) = visit_single_manifest(
        r#"[package]
name = "test-package"
version = "1.0.0"

[dependencies]
runtime-core = { workspace = true }

[target]
"cfg(unix)" = "not-a-table"
"#,
    );

    let projects = finder.projects();
    assert_eq!(projects.len(), 1);
    let deps = projects[0].expect_package().dependencies();
    assert_eq!(
        deps.len(),
        1,
        "a scalar [target] entry must contribute no edges, got {deps:?}"
    );
    assert!(deps.contains("runtime-core"));
}

#[test]
fn test_discover_workspace_dependency_aliases_without_ancestors_records_nothing() {
    let mut finder = RustProjectFinder::new();
    let mut reads = PathMap::new();
    reads.insert(
        "Cargo.toml".to_string(),
        ManifestRead::Content("[package]\nname = \"app\"\nversion = \"1.0.0\"\n".to_string()),
    );

    finder.visit("Cargo.toml", "Cargo.toml", &reads).unwrap();

    assert!(
        finder.workspace_roots.entries.is_empty(),
        "no ancestor was inspected, so no root may be recorded"
    );
    assert!(
        finder.non_workspace_manifest_candidates.is_empty(),
        "no ancestor was inspected, so no candidate may be memoized"
    );
}

#[test]
fn test_discover_workspace_root_for_member_without_ancestors_finds_nothing() {
    let mut finder = RustProjectFinder::new();
    let mut reads = PathMap::new();
    reads.insert(
        "Cargo.toml".to_string(),
        ManifestRead::Content("[package]\nname = \"app\"\nversion.workspace = true\n".to_string()),
    );

    finder.visit("Cargo.toml", "Cargo.toml", &reads).unwrap();
    finder.finalize(&reads).unwrap();

    assert!(finder.workspace_package_versions.entries.is_empty());
    assert_eq!(finder.projects.entries.len(), 1);
    assert_eq!(finder.projects.entries[0].value.version(), None);
}

#[test]
fn test_rust_project_finder_renames_alias_dependency_resolved_during_finalize() {
    let temp_dir = TempDir::new().unwrap();

    fs::write(
        temp_dir.path().join("Cargo.toml"),
        r#"[workspace]
members = ["nested/crates/*"]

[workspace.package]
version = "1.4.0"

[workspace.dependencies]
renamed-core = { package = "core", path = "nested/crates/core" }
"#,
    )
    .unwrap();

    let nested_dir = temp_dir.path().join("nested");
    fs::create_dir_all(&nested_dir).unwrap();
    fs::write(
        nested_dir.join("Cargo.toml"),
        "[workspace]\nmembers = [\"crates/*\"]\n",
    )
    .unwrap();

    let member_dir = nested_dir.join("crates").join("app");
    fs::create_dir_all(&member_dir).unwrap();
    let member_toml = member_dir.join("Cargo.toml");
    fs::write(
        &member_toml,
        r#"[package]
name = "app"
version.workspace = true

[dependencies]
renamed-core = { workspace = true }
"#,
    )
    .unwrap();

    let mut finder = Finder::new();
    finder
        .visit(&member_toml, rel("nested/crates/app/Cargo.toml"))
        .unwrap();

    assert_eq!(
        finder.pending_workspace_packages[0].dependencies,
        vec!["renamed-core".to_string()],
        "visit must not have resolved the alias yet"
    );

    finder.finalize().unwrap();

    let projects = finder.projects();
    let app = projects
        .iter()
        .find(|project| project.name() == Some("app"))
        .expect("member should be discovered");
    assert_eq!(app.version(), Some("1.4.0"));
    let dependencies = app.dependencies();
    assert!(
        dependencies.contains("core"),
        "the alias must resolve to the real package name, got {dependencies:?}"
    );
    assert!(!dependencies.contains("renamed-core"));

    temp_dir.close().unwrap();
}

#[test]
fn test_rust_project_finder_finalize_root_resolves_own_inherited_publish() {
    let temp_dir = TempDir::new().unwrap();

    let workspace_toml = temp_dir.path().join("Cargo.toml");
    fs::write(
        &workspace_toml,
        r#"[workspace]
members = ["crates/*"]

[workspace.package]
version = "0.5.0"
publish = false

[package]
name = "root-crate"
version.workspace = true
publish.workspace = true
"#,
    )
    .unwrap();

    let member_dir = temp_dir.path().join("crates").join("app");
    fs::create_dir_all(&member_dir).unwrap();
    let member_toml = member_dir.join("Cargo.toml");
    fs::write(
        &member_toml,
        "[package]\nname = \"app\"\nversion.workspace = true\n",
    )
    .unwrap();

    let mut finder = Finder::new();
    finder
        .visit(&member_toml, rel("crates/app/Cargo.toml"))
        .unwrap();
    finder.finalize().unwrap();

    let projects = finder.projects();
    let workspace = projects
        .iter()
        .find(|project| matches!(project, Project::Workspace(_)))
        .expect("finalize should synthesize the discovered workspace root");
    assert_eq!(workspace.path(), workspace_toml.as_path());
    assert!(
        !workspace.is_publishable_by_default(),
        "publish.workspace = true must resolve to [workspace.package].publish = false"
    );

    let member = projects
        .iter()
        .find(|project| project.name() == Some("app"))
        .expect("member should be discovered");
    assert!(
        member.is_publishable_by_default(),
        "the member declares no publish key, so it stays publishable"
    );

    temp_dir.close().unwrap();
}

/// What a finder holds, by path: the version, and the root of a member.
fn found(finder: &Finder) -> Vec<(String, Option<String>, Option<String>)> {
    let mut found: Vec<_> = finder
        .projects()
        .into_iter()
        .map(|project| {
            let root = match project {
                Project::Package(package) => package.workspace_root_path().map(text),
                Project::Workspace(_) => None,
            };
            (text(project.path()), project.version().map(text), root)
        })
        .collect();
    found.sort();
    found
}

#[test]
fn members_inherit_from_the_deepest_root_whatever_the_order_of_visits() {
    let temp_dir = TempDir::new().unwrap();
    let root = temp_dir.path().join("Cargo.toml");
    let nested = temp_dir.path().join("nested").join("Cargo.toml");
    let outer = temp_dir.path().join("outer").join("Cargo.toml");
    let inner = temp_dir.path().join("nested").join("inner").join("Cargo.toml");
    fs::write(&root, "[workspace.package]\nversion = \"3.0.0\"\n").unwrap();
    fs::write(&nested, "[workspace.package]\nversion = \"4.0.0\"\n").unwrap();
    fs::write(&outer, "[package]\nname = \"outer\"\nversion.workspace = true\n").unwrap();
    fs::write(&inner, "[package]\nname = \"inner\"\nversion.workspace = true\n").unwrap();
    let expected = vec![
        (text("/work/Cargo.toml"), Some(text("3.0.0")), None),
        (text("/work/nested/Cargo.toml"), Some(text("4.0.0")), None),
        (
            text("/work/nested/inner/Cargo.toml"),
            Some(text("4.0.0")),
            Some(text("/work/nested/Cargo.toml")),
        ),
        (
            text("/work/outer/Cargo.toml"),
            Some(text("3.0.0")),
            Some(text("/work/Cargo.toml")),
        ),
    ];
    let visits = [
        (&root, "Cargo.toml"),
        (&inner, "nested/inner/Cargo.toml"),
        (&outer, "outer/Cargo.toml"),
        (&nested, "nested/Cargo.toml"),
    ];
    for order in [
        vec![0, 1, 2, 3],
        vec![3, 2, 1, 0],
        vec![1, 3, 2, 0],
        vec![0, 2, 1],
        vec![2, 1, 3],
        vec![1, 2],
    ] {
        let mut finder = Finder::new();
        for visit in order {
            let (path, relative_path) = visits[visit];
            finder.visit(path, rel(relative_path)).unwrap();
        }
        finder.finalize().unwrap();
        assert_eq!(found(&finder), expected);
    }
}
