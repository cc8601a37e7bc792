//! A single crate.

use crate::text_set;
use crate::text_set::{insert_text, insert_texts};
use vstd::prelude::*;
use vstd::string::*;

verus! {

/// The language of a project.
#[derive(Clone, Copy, Debug, PartialEq, Eq, Structural)]
pub enum Language {
    Python,
    Node,
    Rust,
    Dart,
    CSharp,
    Java,
}

/// A crate with its manifest.
#[derive(Debug)]
pub struct RustPackage {
    pub name: Option<String>,
    pub version: Option<String>,
    pub path: String,
    pub relative_path: String,
    pub is_changed: bool,
    pub dependencies: Vec<String>,
    pub publishable_by_default: bool,
    pub workspace_version_inherited: bool,
    pub workspace_root: Option<String>,
}

/// [`RustPackage`] over mathematical values.
#[verifier::ext_equal]
pub struct PackageView {
    pub name: Option<Seq<char>>,
    pub version: Option<Seq<char>>,
    pub path: Seq<char>,
    pub relative_path: Seq<char>,
    pub is_changed: bool,
    pub dependencies: Set<Seq<char>>,
    pub publishable_by_default: bool,
    pub workspace_version_inherited: bool,
    pub workspace_root: Option<Seq<char>>,
}

impl View for RustPackage {
    type V = PackageView;

    open spec fn view(&self) -> PackageView {
        PackageView {
            name: text_set::optional_view(self.name),
            version: text_set::optional_view(self.version),
            path: self.path@,
            relative_path: self.relative_path@,
            is_changed: self.is_changed,
            dependencies: text_set::text_set(self.dependencies@),
            publishable_by_default: self.publishable_by_default,
            workspace_version_inherited: self.workspace_version_inherited,
            workspace_root: text_set::optional_view(self.workspace_root),
        }
    }
}

/// The command that publishes one crate.
pub const PUBLISH_COMMAND: &'static str = "cargo publish";

/// The command that publishes one crate without uploading it.
pub const DRY_RUN_PUBLISH_COMMAND: &'static str = "cargo publish --dry-run";

impl RustPackage {
    /// No dependency is listed twice.
    pub open spec fn well_formed(&self) -> bool {
        text_set::all_different(self.dependencies@)
    }

    fn build(
        name: Option<String>,
        version: Option<String>,
        path: String,
        relative_path: String,
        workspace_version_inherited: bool,
        workspace_root: Option<String>,
    ) -> (package: Self)
        ensures
            package.well_formed(),
            package@ == (PackageView {
                name: text_set::optional_view(name),
                version: text_set::optional_view(version),
                path: path@,
                relative_path: relative_path@,
                is_changed: false,
                dependencies: Set::empty(),
                publishable_by_default: true,
                workspace_version_inherited,
                workspace_root: text_set::optional_view(workspace_root),
            }),
    {
        let package = RustPackage {
            name,
            version,
            path,
            relative_path,
            is_changed: false,
            dependencies: Vec::new(),
            publishable_by_default: true,
            workspace_version_inherited,
            workspace_root,
        };
        proof {
            assert(package@.dependencies =~= Set::empty());
        }
        package
    }

    /// A crate with a version of its own.
    pub fn new(
        name: Option<String>,
        version: Option<String>,
        path: String,
        relative_path: String,
    ) -> (package: Self)
        ensures
            package.well_formed(),
            package@ == (PackageView {
                name: text_set::optional_view(name),
                version: text_set::optional_view(version),
                path: path@,
                relative_path: relative_path@,
                is_changed: false,
                dependencies: Set::empty(),
                publishable_by_default: true,
                workspace_version_inherited: false,
                workspace_root: None,
            }),
    {
        Self::build(name, version, path, relative_path, false, None)
    }

    /// A crate that inherits its version from `workspace_root`.
    pub fn new_with_workspace_version(
        name: Option<String>,
        version: Option<String>,
        path: String,
        relative_path: String,
        workspace_root: Option<String>,
    ) -> (package: Self)
        ensures
            package.well_formed(),
            package@ == (PackageView {
                name: text_set::optional_view(name),
                version: text_set::optional_view(version),
                path: path@,
                relative_path: relative_path@,
                is_changed: false,
                dependencies: Set::empty(),
                publishable_by_default: true,
                workspace_version_inherited: true,
                workspace_root: text_set::optional_view(workspace_root),
            }),
    {
        Self::build(name, version, path, relative_path, true, workspace_root)
    }

    /// The same crate with another answer to whether it is published.
    pub fn with_publishable_by_default(self, publishable_by_default: bool) -> (package: Self)
        requires
            self.well_formed(),
        ensures
            package.well_formed(),
            package@ == (PackageView { publishable_by_default, ..self@ }),
    {
        let mut package = self;
        package.publishable_by_default = publishable_by_default;
        package
    }

    pub fn name(&self) -> (name: Option<&str>)
        ensures
            match name {
                Some(text) => self@.name == Some(text@),
                None => self@.name is None,
            },
    {
        match &self.name {
            Some(name) => Some(name.as_str()),
            None => None,
        }
    }

    pub fn version(&self) -> (version: Option<&str>)
        ensures
            match version {
                Some(text) => self@.version == Some(text@),
                None => self@.version is None,
            },
    {
        match &self.version {
            Some(version) => Some(version.as_str()),
            None => None,
        }
    }

    pub fn path(&self) -> (path: &str)
        ensures
            path@ == self@.path,
    {
        self.path.as_str()
    }

    pub fn relative_path(&self) -> (path: &str)
        ensures
            path@ == self@.relative_path,
    {
        self.relative_path.as_str()
    }

    pub fn is_changed(&self) -> (changed: bool)
        ensures
            changed == self@.is_changed,
    {
        self.is_changed
    }

    pub fn set_changed(&mut self, changed: bool)
        requires
            old(self).well_formed(),
        ensures
            final(self).well_formed(),
            final(self)@ == (PackageView { is_changed: changed, ..old(self)@ }),
    {
        self.is_changed = changed;
    }

    pub fn set_name(&mut self, name: String)
        requires
            old(self).well_formed(),
        ensures
            final(self).well_formed(),
            final(self)@ == (PackageView { name: Some(name@), ..old(self)@ }),
    {
        self.name = Some(name);
    }

    /// Replaces the version.
    pub fn set_version(&mut self, version: String)
        requires
            old(self).well_formed(),
        ensures
            final(self).well_formed(),
            final(self)@ == (PackageView { version: Some(version@), ..old(self)@ }),
    {
        self.version = Some(version);
    }

    pub fn language(&self) -> (language: Language)
        ensures
            language == Language::Rust,
    {
        Language::Rust
    }

    pub fn is_publishable_by_default(&self) -> (publishable: bool)
        ensures
            publishable == self@.publishable_by_default,
    {
        self.publishable_by_default
    }

    pub fn default_publish_command(&self) -> (command: String)
        ensures
            command@ == "cargo publish"@,
    {
        PUBLISH_COMMAND.to_string()
    }

    pub fn default_dry_run_publish_command(&self) -> (command: Option<String>)
        ensures
            text_set::optional_view(command) == Some("cargo publish --dry-run"@),
    {
        Some(DRY_RUN_PUBLISH_COMMAND.to_string())
    }

    /// The names of the crates that this one depends on, each once.
    pub fn dependencies(&self) -> (dependencies: &Vec<String>)
        requires
            self.well_formed(),
        ensures
            text_set::text_set(dependencies@) == self@.dependencies,
            text_set::all_different(dependencies@),
    {
        &self.dependencies
    }

    pub fn add_dependency(&mut self, dependency: &str)
        requires
            old(self).well_formed(),
        ensures
            final(self).well_formed(),
            final(self)@ == (PackageView {
                dependencies: old(self)@.dependencies.insert(dependency@),
                ..old(self)@
            }),
    {
        insert_text(&mut self.dependencies, dependency);
    }

    pub fn add_dependencies(&mut self, dependencies: &Vec<String>)
        requires
            old(self).well_formed(),
        ensures
            final(self).well_formed(),
            final(self)@ == (PackageView {
                dependencies: old(self)@.dependencies.union(text_set::text_set(dependencies@)),
                ..old(self)@
            }),
    {
        insert_texts(&mut self.dependencies, dependencies);
    }

    pub fn inherits_workspace_version(&self) -> (inherits: bool)
        ensures
            inherits == self@.workspace_version_inherited,
    {
        self.workspace_version_inherited
    }

    pub fn workspace_root_path(&self) -> (root: Option<&str>)
        ensures
            match root {
                Some(text) => self@.workspace_root == Some(text@),
                None => self@.workspace_root is None,
            },
    {
        match &self.workspace_root {
            Some(root) => Some(root.as_str()),
            None => None,
        }
    }
}

} // verus!
