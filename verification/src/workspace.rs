//! A workspace root.

use crate::package::{Language, DRY_RUN_PUBLISH_COMMAND, PUBLISH_COMMAND};
use crate::paths::copy_texts;
use crate::text::same_text;
use crate::text_set;
use crate::text_set::{holds_text, insert_text, insert_texts};
use vstd::prelude::*;
use vstd::string::*;

verus! {

/// The members that inherit a workspace's version: their package names, and
/// the dependency keys under which the workspace knows some of them.
#[derive(Debug)]
pub struct InheritedWorkspaceMemberIdentities {
    pub package_names: Vec<String>,
    pub dependency_aliases: Vec<String>,
}

/// [`InheritedWorkspaceMemberIdentities`] over mathematical values.
#[verifier::ext_equal]
pub struct MembersView {
    pub package_names: Set<Seq<char>>,
    pub dependency_aliases: Set<Seq<char>>,
}

impl View for InheritedWorkspaceMemberIdentities {
    type V = MembersView;

    open spec fn view(&self) -> MembersView {
        MembersView {
            package_names: text_set::text_set(self.package_names@),
            dependency_aliases: text_set::text_set(self.dependency_aliases@),
        }
    }
}

impl MembersView {
    /// Nobody inherits.
    pub open spec fn nobody() -> MembersView {
        MembersView { package_names: Set::empty(), dependency_aliases: Set::empty() }
    }

    /// The dependency entry `key`, which stands for `package`, belongs to an
    /// inheriting member.
    pub open spec fn covers(self, key: Seq<char>, package: Seq<char>) -> bool {
        self.package_names.contains(package) && (key == package || self.dependency_aliases.contains(
            key,
        ))
    }
}

impl InheritedWorkspaceMemberIdentities {
    /// Nothing is listed twice.
    pub open spec fn well_formed(&self) -> bool {
        text_set::all_different(self.package_names@) && text_set::all_different(
            self.dependency_aliases@,
        )
    }

    /// No members.
    pub fn new() -> (members: Self)
        ensures
            members.well_formed(),
            members@ == MembersView::nobody(),
    {
        let members = InheritedWorkspaceMemberIdentities {
            package_names: Vec::new(),
            dependency_aliases: Vec::new(),
        };
        proof {
            assert(members@ =~= MembersView::nobody());
        }
        members
    }

    /// Adds a member and the keys that stand for it.
    pub fn record(&mut self, package_name: &str, aliases: &Vec<String>)
        requires
            old(self).well_formed(),
        ensures
            final(self).well_formed(),
            final(self)@ == (MembersView {
                package_names: old(self)@.package_names.insert(package_name@),
                dependency_aliases: old(self)@.dependency_aliases.union(
                    text_set::text_set(aliases@),
                ),
            }),
    {
        insert_text(&mut self.package_names, package_name);
        insert_texts(&mut self.dependency_aliases, aliases);
    }

    /// A copy.
    pub fn copy(&self) -> (members: Self)
        requires
            self.well_formed(),
        ensures
            members.well_formed(),
            members@ == self@,
    {
        InheritedWorkspaceMemberIdentities {
            package_names: copy_texts(&self.package_names),
            dependency_aliases: copy_texts(&self.dependency_aliases),
        }
    }

    /// Whether the dependency entry `dependency_key`, which stands for
    /// `package_name`, belongs to an inheriting member.
    pub fn contains_dependency(&self, dependency_key: &str, package_name: &str) -> (covered: bool)
        ensures
            covered == self@.covers(dependency_key@, package_name@),
    {
        holds_text(&self.package_names, package_name) && (same_text(dependency_key, package_name)
            || holds_text(&self.dependency_aliases, dependency_key))
    }
}

/// A workspace root with its manifest.
#[derive(Debug)]
pub struct RustWorkspace {
    pub path: String,
    pub relative_path: String,
    pub version: Option<String>,
    pub name: Option<String>,
    pub is_changed: bool,
    pub dependencies: Vec<String>,
    pub publishable_by_default: bool,
    pub inherited_workspace_members: InheritedWorkspaceMemberIdentities,
}

/// [`RustWorkspace`] over mathematical values.
#[verifier::ext_equal]
pub struct WorkspaceView {
    pub path: Seq<char>,
    pub relative_path: Seq<char>,
    pub version: Option<Seq<char>>,
    pub name: Option<Seq<char>>,
    pub is_changed: bool,
    pub dependencies: Set<Seq<char>>,
    pub publishable_by_default: bool,
    pub inherited_workspace_members: MembersView,
}

impl View for RustWorkspace {
    type V = WorkspaceView;

    open spec fn view(&self) -> WorkspaceView {
        WorkspaceView {
            path: self.path@,
            relative_path: self.relative_path@,
            version: text_set::optional_view(self.version),
            name: text_set::optional_view(self.name),
            is_changed: self.is_changed,
            dependencies: text_set::text_set(self.dependencies@),
            publishable_by_default: self.publishable_by_default,
            inherited_workspace_members: self.inherited_workspace_members@,
        }
    }
}

impl RustWorkspace {
    /// Nothing is listed twice.
    pub open spec fn well_formed(&self) -> bool {
        text_set::all_different(self.dependencies@)
            && self.inherited_workspace_members.well_formed()
    }

    /// A workspace root without known inheriting members.
    pub fn new(
        name: Option<String>,
        version: Option<String>,
        path: String,
        relative_path: String,
    ) -> (workspace: Self)
        ensures
            workspace.well_formed(),
            workspace@ == (WorkspaceView {
                path: path@,
                relative_path: relative_path@,
                version: text_set::optional_view(version),
                name: text_set::optional_view(name),
                is_changed: false,
                dependencies: Set::empty(),
                publishable_by_default: name is Some,
                inherited_workspace_members: MembersView::nobody(),
            }),
    {
        Self::new_with_inherited_workspace_members(
            name,
            version,
            path,
            relative_path,
            InheritedWorkspaceMemberIdentities::new(),
            true,
        )
    }

    /// A workspace root with its inheriting members. Only a root with a
    /// package name can be published.
    pub fn new_with_inherited_workspace_members(
        name: Option<String>,
        version: Option<String>,
        path: String,
        relative_path: String,
        inherited_workspace_members: InheritedWorkspaceMemberIdentities,
        package_publishable_by_default: bool,
    ) -> (workspace: Self)
        requires
            inherited_workspace_members.well_formed(),
        ensures
            workspace.well_formed(),
            workspace@ == (WorkspaceView {
                path: path@,
                relative_path: relative_path@,
                version: text_set::optional_view(version),
                name: text_set::optional_view(name),
                is_changed: false,
                dependencies: Set::empty(),
                publishable_by_default: name is Some && package_publishable_by_default,
                inherited_workspace_members: inherited_workspace_members@,
            }),
    {
        let publishable_by_default: bool = name.is_some() && package_publishable_by_default;
        let workspace = RustWorkspace {
            path,
            relative_path,
            version,
            name,
            is_changed: false,
            dependencies: Vec::new(),
            publishable_by_default,
            inherited_workspace_members,
        };
        proof {
            assert(workspace@.dependencies =~= Set::empty());
        }
        workspace
    }

    pub fn name(&self) -> (name: Option<&str>)
        ensures
            match name {
                Some(text) => self@.name == Some(text@),
                None => self@.name is None,
            },
    {
        match &self.name {
            Some(name) => Some(name.as_str()),
            None => None,
        }
    }

    pub fn version(&self) -> (version: Option<&str>)
        ensures
            match version {
                Some(text) => self@.version == Some(text@),
                None => self@.version is None,
            },
    {
        match &self.version {
            Some(version) => Some(version.as_str()),
            None => None,
        }
    }

    pub fn path(&self) -> (path: &str)
        ensures
            path@ == self@.path,
    {
        self.path.as_str()
    }

    pub fn relative_path(&self) -> (path: &str)
        ensures
            path@ == self@.relative_path,
    {
        self.relative_path.as_str()
    }

    pub fn is_changed(&self) -> (changed: bool)
        ensures
            changed == self@.is_changed,
    {
        self.is_changed
    }

    pub fn set_changed(&mut self, changed: bool)
        requires
            old(self).well_formed(),
        ensures
            final(self).well_formed(),
            final(self)@ == (WorkspaceView { is_changed: changed, ..old(self)@ }),
    {
        self.is_changed = changed;
    }

    /// Names the workspace. Whether it is published stays as it was decided
    /// when the manifest was read.
    pub fn set_name(&mut self, name: String)
        requires
            old(self).well_formed(),
        ensures
            final(self).well_formed(),
            final(self)@ == (WorkspaceView { name: Some(name@), ..old(self)@ }),
    {
        self.name = Some(name);
    }

    /// Replaces the version.
    pub fn set_version(&mut self, version: String)
        requires
            old(self).well_formed(),
        ensures
            final(self).well_formed(),
            final(self)@ == (WorkspaceView { version: Some(version@), ..old(self)@ }),
    {
        self.version = Some(version);
    }

    pub fn language(&self) -> (language: Language)
        ensures
            language == Language::Rust,
    {
        Language::Rust
    }

    pub fn is_publishable_by_default(&self) -> (publishable: bool)
        ensures
            publishable == self@.publishable_by_default,
    {
        self.publishable_by_default
    }

    pub fn default_publish_command(&self) -> (command: String)
        ensures
            command@ == "cargo publish"@,
    {
        PUBLISH_COMMAND.to_string()
    }

    pub fn default_dry_run_publish_command(&self) -> (command: Option<String>)
        ensures
            text_set::optional_view(command) == Some("cargo publish --dry-run"@),
    {
        Some(DRY_RUN_PUBLISH_COMMAND.to_string())
    }

    /// The names of the crates that the root depends on, each once.
    pub fn dependencies(&self) -> (dependencies: &Vec<String>)
        requires
            self.well_formed(),
        ensures
            text_set::text_set(dependencies@) == self@.dependencies,
            text_set::all_different(dependencies@),
    {
        &self.dependencies
    }

    pub fn add_dependency(&mut self, dependency: &str)
        requires
            old(self).well_formed(),
        ensures
            final(self).well_formed(),
            final(self)@ == (WorkspaceView {
                dependencies: old(self)@.dependencies.insert(dependency@),
                ..old(self)@
            }),
    {
        insert_text(&mut self.dependencies, dependency);
    }

    pub fn add_dependencies(&mut self, dependencies: &Vec<String>)
        requires
            old(self).well_formed(),
        ensures
            final(self).well_formed(),
            final(self)@ == (WorkspaceView {
                dependencies: old(self)@.dependencies.union(text_set::text_set(dependencies@)),
                ..old(self)@
            }),
    {
        insert_texts(&mut self.dependencies, dependencies);
    }
}

/// A dependency is on a member where its package is one, and its key is that
/// package's name or one of the aliases.
pub proof fn dependencies_on_members(members: MembersView, key: Seq<char>, package: Seq<char>)
    ensures
        !members.package_names.contains(package) ==> !members.covers(key, package),
        members.package_names.contains(package) ==> members.covers(package, package),
        members.package_names.contains(package) && members.dependency_aliases.contains(key)
            ==> members.covers(key, package),
        key != package && !members.dependency_aliases.contains(key) ==> !members.covers(
            key,
            package,
        ),
{
}

} // verus!
