//! A discovered project: a workspace root or a single package.

use crate::package::{Language, PackageView, RustPackage};
use crate::workspace::{RustWorkspace, WorkspaceView};
use vstd::prelude::*;
use vstd::string::*;

verus! {

/// A discovered project.
#[derive(Debug)]
pub enum Project {
    Workspace(RustWorkspace),
    Package(RustPackage),
}

/// What every project has, over mathematical values.
#[verifier::ext_equal]
pub struct ProjectView {
    pub name: Option<Seq<char>>,
    pub version: Option<Seq<char>>,
    pub path: Seq<char>,
    pub relative_path: Seq<char>,
    pub is_changed: bool,
    pub dependencies: Set<Seq<char>>,
    pub publishable_by_default: bool,
}

impl View for Project {
    type V = ProjectView;

    open spec fn view(&self) -> ProjectView {
        match self {
            Project::Workspace(workspace) => ProjectView {
                name: workspace@.name,
                version: workspace@.version,
                path: workspace@.path,
                relative_path: workspace@.relative_path,
                is_changed: workspace@.is_changed,
                dependencies: workspace@.dependencies,
                publishable_by_default: workspace@.publishable_by_default,
            },
            Project::Package(package) => ProjectView {
                name: package@.name,
                version: package@.version,
                path: package@.path,
                relative_path: package@.relative_path,
                is_changed: package@.is_changed,
                dependencies: package@.dependencies,
                publishable_by_default: package@.publishable_by_default,
            },
        }
    }
}

/// A project over mathematical values.
pub enum ProjectKind {
    Workspace(WorkspaceView),
    Package(PackageView),
}

impl Project {
    /// Everything that a project has.
    pub open spec fn kind(&self) -> ProjectKind {
        match self {
            Project::Workspace(workspace) => ProjectKind::Workspace(workspace@),
            Project::Package(package) => ProjectKind::Package(package@),
        }
    }

    /// Nothing is listed twice.
    pub open spec fn well_formed(&self) -> bool {
        match self {
            Project::Workspace(workspace) => workspace.well_formed(),
            Project::Package(package) => package.well_formed(),
        }
    }

    pub fn name(&self) -> (name: Option<&str>)
        ensures
            match name {
                Some(text) => self@.name == Some(text@),
                None => self@.name is None,
            },
    {
        match self {
            Project::Workspace(workspace) => workspace.name(),
            Project::Package(package) => package.name(),
        }
    }

    pub fn version(&self) -> (version: Option<&str>)
        ensures
            match version {
                Some(text) => self@.version == Some(text@),
                None => self@.version is None,
            },
    {
        match self {
            Project::Workspace(workspace) => workspace.version(),
            Project::Package(package) => package.version(),
        }
    }

    pub fn path(&self) -> (path: &str)
        ensures
            path@ == self@.path,
    {
        match self {
            Project::Workspace(workspace) => workspace.path(),
            Project::Package(package) => package.path(),
        }
    }

    pub fn relative_path(&self) -> (path: &str)
        ensures
            path@ == self@.relative_path,
    {
        match self {
            Project::Workspace(workspace) => workspace.relative_path(),
            Project::Package(package) => package.relative_path(),
        }
    }

    pub fn is_changed(&self) -> (changed: bool)
        ensures
            changed == self@.is_changed,
    {
        match self {
            Project::Workspace(workspace) => workspace.is_changed(),
            Project::Package(package) => package.is_changed(),
        }
    }

    pub fn language(&self) -> (language: Language)
        ensures
            language == Language::Rust,
    {
        match self {
            Project::Workspace(workspace) => workspace.language(),
            Project::Package(package) => package.language(),
        }
    }

    pub fn is_publishable_by_default(&self) -> (publishable: bool)
        ensures
            publishable == self@.publishable_by_default,
    {
        match self {
            Project::Workspace(workspace) => workspace.is_publishable_by_default(),
            Project::Package(package) => package.is_publishable_by_default(),
        }
    }

    /// The names of the projects that this one depends on, each once.
    pub fn dependencies(&self) -> (dependencies: &Vec<String>)
        requires
            self.well_formed(),
        ensures
            crate::text_set::text_set(dependencies@) == self@.dependencies,
            crate::text_set::all_different(dependencies@),
    {
        match self {
            Project::Workspace(workspace) => workspace.dependencies(),
            Project::Package(package) => package.dependencies(),
        }
    }

    pub fn set_name(&mut self, name: String)
        requires
            old(self).well_formed(),
        ensures
            final(self).well_formed(),
            final(self)@ == (ProjectView { name: Some(name@), ..old(self)@ }),
            final(self).kind() == (match old(self).kind() {
                ProjectKind::Workspace(w) => ProjectKind::Workspace(
                    WorkspaceView { name: Some(name@), ..w },
                ),
                ProjectKind::Package(p) => ProjectKind::Package(
                    PackageView { name: Some(name@), ..p },
                ),
            }),
    {
        match self {
            Project::Workspace(workspace) => workspace.set_name(name),
            Project::Package(package) => package.set_name(name),
        }
    }

    pub fn set_changed(&mut self, changed: bool)
        requires
            old(self).well_formed(),
        ensures
            final(self).well_formed(),
            final(self)@ == (ProjectView { is_changed: changed, ..old(self)@ }),
            final(self).kind() == (match old(self).kind() {
                ProjectKind::Workspace(w) => ProjectKind::Workspace(
                    WorkspaceView { is_changed: changed, ..w },
                ),
                ProjectKind::Package(p) => ProjectKind::Package(
                    PackageView { is_changed: changed, ..p },
                ),
            }),
    {
        match self {
            Project::Workspace(workspace) => workspace.set_changed(changed),
            Project::Package(package) => package.set_changed(changed),
        }
    }

    pub fn add_dependency(&mut self, dependency: &str)
        requires
            old(self).well_formed(),
        ensures
            final(self).well_formed(),
            final(self)@ == (ProjectView {
                dependencies: old(self)@.dependencies.insert(dependency@),
                ..old(self)@
            }),
            final(self).kind() == (match old(self).kind() {
                ProjectKind::Workspace(w) => ProjectKind::Workspace(
                    WorkspaceView { dependencies: w.dependencies.insert(dependency@), ..w },
                ),
                ProjectKind::Package(p) => ProjectKind::Package(
                    PackageView { dependencies: p.dependencies.insert(dependency@), ..p },
                ),
            }),
    {
        match self {
            Project::Workspace(workspace) => workspace.add_dependency(dependency),
            Project::Package(package) => package.add_dependency(dependency),
        }
    }
}

} // verus!
