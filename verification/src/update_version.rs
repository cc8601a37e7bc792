//! Bumping the version of a project, in its manifest and in memory.

use crate::bump_version_with;
use crate::bump_version_with::version_error_message;
use crate::dependency_pins::PinRuleView;
use crate::manifest_update;
use crate::manifest_update::{
    concerns_rust_workspace, manifest_with_workspace_dependencies, write_cargo_package_version,
    write_workspace_version, BumpedPackage, ManifestError,
};
use crate::package::{PackageView, RustPackage};
use crate::toml;
use crate::toml::TomlNode;
use crate::update_type::UpdateType;
use crate::version;
use crate::version::{next_version, InvalidVersion};
use crate::workspace::{RustWorkspace, WorkspaceView};
use vstd::prelude::*;
use vstd::string::*;

verus! {

/// A bump that failed.
#[derive(Debug)]
pub enum UpdateError<E> {
    /// The version of a package cannot be bumped.
    Version { path: String, invalid: InvalidVersion },
    /// The version of a workspace root cannot be bumped.
    RootVersion(InvalidVersion),
    /// The manifest cannot be updated.
    Manifest(ManifestError),
    /// The manifest cannot be read.
    Read(E),
    /// The manifest cannot be written.
    Write(E),
}

/// `outcome` is one that reading the file can have.
pub open spec fn is_read<E>(
    read: impl FnOnce(&str) -> Result<String, E>,
    path: Seq<char>,
    outcome: Result<String, E>,
) -> bool {
    exists|argument: &str|
        argument@ == path && #[trigger] call_ensures(read, (argument,), outcome)
}

/// `outcome` is one that writing the content to the file can have.
pub open spec fn is_write<E>(
    write: impl FnOnce(&str, &str) -> Result<(), E>,
    path: Seq<char>,
    content: Seq<char>,
    outcome: Result<(), E>,
) -> bool {
    exists|p: &str, c: &str|
        p@ == path && c@ == content && #[trigger] call_ensures(write, (p, c), outcome)
}

/// The version of a project, or the default where it has none.
pub open spec fn current_version(version: Option<Seq<char>>) -> Seq<char> {
    match version {
        Some(v) => v,
        None => version::DEFAULT_VERSION@,
    }
}

/// A root package that is present is a table.
pub open spec fn package_is_table(nodes: Map<Seq<Seq<char>>, TomlNode>) -> bool {
    toml::has_entry(nodes, "package"@) ==> toml::is_table_like(toml::entry(nodes, "package"@))
}

/// Something else stands where the table under the key belongs.
pub open spec fn is_non_table(error: ManifestError, path: Seq<char>, key: Seq<char>) -> bool {
    match error {
        ManifestError::NonTable(item) => item.label@ == "Cargo.toml"@ && item.path@ == path
            && item.key@ == key,
        ManifestError::Unparsable { .. } => false,
    }
}

/// The manifest is not TOML.
pub open spec fn is_unparsable(error: ManifestError, path: Seq<char>, original: Seq<char>) -> bool {
    match error {
        ManifestError::Unparsable { path: p, message } => p@ == path && toml::parsed_document(
            original,
        ) == Err::<Map<Seq<Seq<char>>, TomlNode>, Seq<char>>(message@),
        ManifestError::NonTable(_) => false,
    }
}

/// The error says why the manifest of a package cannot get another version.
pub open spec fn is_package_fault(
    error: ManifestError,
    path: Seq<char>,
    original: Seq<char>,
) -> bool {
    match toml::parsed_document(original) {
        Ok(nodes) => !package_is_table(nodes) && is_non_table(error, path, "package"@),
        Err(_) => is_unparsable(error, path, original),
    }
}

/// The error says why the manifest of a workspace root cannot get another
/// version.
pub open spec fn is_workspace_fault(
    error: ManifestError,
    path: Seq<char>,
    original: Seq<char>,
) -> bool {
    match toml::parsed_document(original) {
        Ok(nodes) => if !package_is_table(nodes) {
            is_non_table(error, path, "package"@)
        } else {
            !manifest_update::has_room_for_version(nodes) && is_non_table(
                error,
                path,
                "workspace.package"@,
            )
        },
        Err(_) => is_unparsable(error, path, original),
    }
}

/// `content` is the manifest `original` of a package at another version.
pub open spec fn is_package_manifest(
    content: Seq<char>,
    original: Seq<char>,
    new_version: Seq<char>,
) -> bool {
    match toml::parsed_document(original) {
        Ok(nodes) => package_is_table(nodes) && manifest_update::writes(
            content,
            manifest_update::with_table_version(nodes, "package"@, new_version),
            original,
        ),
        Err(_) => false,
    }
}

/// `content` is the manifest `original` of a workspace root at another version.
pub open spec fn is_workspace_manifest(
    content: Seq<char>,
    original: Seq<char>,
    workspace: WorkspaceView,
    new_version: Seq<char>,
) -> bool {
    match toml::parsed_document(original) {
        Ok(nodes) => package_is_table(nodes) && manifest_update::has_room_for_version(nodes)
            && manifest_update::writes(
            content,
            manifest_update::updated_workspace(
                nodes,
                match workspace.name {
                    Some(name) => name,
                    None => "_"@,
                },
                current_version(workspace.version),
                new_version,
                workspace.inherited_workspace_members,
            ),
            original,
        ),
        Err(_) => false,
    }
}

/// The version that a bump of the project gives.
pub open spec fn bumped_version(version: Option<Seq<char>>, update_type: UpdateType) -> Option<
    Seq<char>,
> {
    version::next_version_text(current_version(version), update_type)
}

/// A bump of the package reads the file: it is the manifest of a package that
/// has its own version, which can be bumped.
pub open spec fn may_read_package(
    package: PackageView,
    update_type: UpdateType,
    path: Seq<char>,
) -> bool {
    &&& !package.workspace_version_inherited
    &&& bumped_version(package.version, update_type) is Some
    &&& path == package.path
}

/// A bump of the package writes the content to the file: it is the manifest
/// that was read, at the next version.
pub open spec fn may_write_package<E>(
    read: impl FnOnce(&str) -> Result<String, E>,
    package: PackageView,
    update_type: UpdateType,
    path: Seq<char>,
    content: Seq<char>,
) -> bool {
    &&& may_read_package(package, update_type, path)
    &&& exists|original: String| #[trigger]
        is_read(read, package.path, Ok(original)) && is_package_manifest(
            content,
            original@,
            bumped_version(package.version, update_type)->0,
        )
}

/// A bump of the workspace reads the file: it is its manifest, and its version
/// can be bumped.
pub open spec fn may_read_workspace(
    workspace: WorkspaceView,
    update_type: UpdateType,
    path: Seq<char>,
) -> bool {
    &&& bumped_version(workspace.version, update_type) is Some
    &&& path == workspace.path
}

/// A bump of the workspace writes the content to the file: it is the manifest
/// that was read, at the next version.
pub open spec fn may_write_workspace<E>(
    read: impl FnOnce(&str) -> Result<String, E>,
    workspace: WorkspaceView,
    update_type: UpdateType,
    path: Seq<char>,
    content: Seq<char>,
) -> bool {
    &&& may_read_workspace(workspace, update_type, path)
    &&& exists|original: String| #[trigger]
        is_read(read, workspace.path, Ok(original)) && is_workspace_manifest(
            content,
            original@,
            workspace,
            bumped_version(workspace.version, update_type)->0,
        )
}

/// Moving requirements reads the file: it is the manifest of the workspace, and
/// one of the packages is a Rust package with a name.
pub open spec fn may_read_dependencies(
    workspace: WorkspaceView,
    packages: Seq<BumpedPackage>,
    path: Seq<char>,
) -> bool {
    &&& manifest_update::names_rust_package(packages)
    &&& path == workspace.path
}

/// Moving requirements writes the content to the file: it is the manifest that
/// was read, in which a requirement moves, with its requirements moved.
pub open spec fn may_write_dependencies<E>(
    read: impl FnOnce(&str) -> Result<String, E>,
    workspace: WorkspaceView,
    packages: Seq<BumpedPackage>,
    path: Seq<char>,
    content: Seq<char>,
) -> bool {
    &&& may_read_dependencies(workspace, packages, path)
    &&& exists|original: String| #[trigger]
        is_read(read, workspace.path, Ok(original)) && is_moved_manifest(
            content,
            original@,
            PinRuleView::Named(manifest_update::rust_versions(packages)),
        )
}

impl RustPackage {
    /// Bumps the version in the manifest, and once that is written in memory.
    /// A manifest that is refused is not written. A member that inherits the
    /// version of its workspace is left alone, and its manifest neither read nor
    /// written: the workspace root owns the bump.
    pub fn update_version<E, R, W>(&mut self, update_type: UpdateType, read: R, write: W) -> (result:
        Result<(), UpdateError<E>>) where
        R: FnOnce(&str) -> Result<String, E>,
        W: FnOnce(&str, &str) -> Result<(), E>,

        requires
            old(self).well_formed(),
            forall|path: &str|
                may_read_package(old(self)@, update_type, path@) ==> #[trigger] call_requires(
                    read,
                    (path,),
                ),
            forall|path: &str, content: &str|
                may_write_package(read, old(self)@, update_type, path@, content@) ==> #[trigger] call_requires(write, (path, content)),
        ensures
            final(self).well_formed(),
            old(self)@.workspace_version_inherited ==> result is Ok,
            match result {
                Ok(_) => if old(self)@.workspace_version_inherited {
                    *final(self) == *old(self)
                } else {
                    let next = version::next_version_text(
                        current_version(old(self)@.version),
                        update_type,
                    );
                    &&& next is Some
                    &&& final(self)@ == (PackageView { version: next, ..old(self)@ })
                    &&& exists|original: String, content: Seq<char>| #[trigger]
                        is_package_manifest(content, original@, next->0) && is_read(
                            read,
                            old(self)@.path,
                            Ok(original),
                        ) && is_write(write, old(self)@.path, content, Ok(()))
                },
                Err(error) => {
                    let next = version::next_version_text(
                        current_version(old(self)@.version),
                        update_type,
                    );
                    &&& *final(self) == *old(self)
                    &&& (error is Version <==> next is None)
                    &&& match error {
                        UpdateError::Version { path, invalid } => path@ == old(self)@.path
                            && invalid.version@ == current_version(old(self)@.version),
                        UpdateError::RootVersion(_) => false,
                        UpdateError::Read(e) => is_read(read, old(self)@.path, Err(e)),
                        UpdateError::Manifest(e) => exists|original: String| #[trigger]
                            is_read(read, old(self)@.path, Ok(original)) && is_package_fault(
                                e,
                                old(self)@.path,
                                original@,
                            ),
                        UpdateError::Write(e) => exists|original: String, content: Seq<char>|
                            #[trigger] is_package_manifest(content, original@, next->0) && is_read(
                                read,
                                old(self)@.path,
                                Ok(original),
                            ) && is_write(write, old(self)@.path, content, Err(e)),
                    }
                },
            },
    {
        if self.workspace_version_inherited {
            return Ok(());
        }
        let current: &str = match &self.version {
            Some(v) => v.as_str(),
            None => version::DEFAULT_VERSION,
        };
        let new_version: String = match next_version(current, update_type) {
            Ok(next) => next,
            Err(invalid) => {
                return Err(UpdateError::Version { path: self.path.clone(), invalid });
            },
        };
        let original: String = match read(self.path.as_str()) {
            Ok(content) => content,
            Err(error) => {
                return Err(UpdateError::Read(error));
            },
        };
        let content: String = match write_cargo_package_version(
            original.as_str(),
            self.path.as_str(),
            new_version.as_str(),
        ) {
            Ok(content) => content,
            Err(error) => {
                proof {
                    assert(is_read(read, self@.path, Ok(original)));
                }
                return Err(UpdateError::Manifest(error));
            },
        };
        proof {
            let next = version::next_version_text(current_version(self@.version), update_type);
            assert(is_package_manifest(content@, original@, next->0));
            assert(is_read(read, self@.path, Ok(original)));
        }
        match write(self.path.as_str(), content.as_str()) {
            Ok(done) => {
                proof {
                    assert(done == ());
                    assert(is_write(write, self@.path, content@, Ok(())));
                }
                self.set_version(new_version);
                Ok(())
            },
            Err(error) => {
                proof {
                    assert(is_write(write, self@.path, content@, Err(error)));
                }
                Err(UpdateError::Write(error))
            },
        }
    }
}

impl RustWorkspace {
    /// Bumps the version in the manifest, and once that is written in memory.
    /// A manifest that is refused is not written.
    pub fn update_version<E, R, W>(&mut self, update_type: UpdateType, read: R, write: W) -> (result:
        Result<(), UpdateError<E>>) where
        R: FnOnce(&str) -> Result<String, E>,
        W: FnOnce(&str, &str) -> Result<(), E>,

        requires
            old(self).well_formed(),
            forall|path: &str|
                may_read_workspace(old(self)@, update_type, path@) ==> #[trigger] call_requires(
                    read,
                    (path,),
                ),
            forall|path: &str, content: &str|
                may_write_workspace(read, old(self)@, update_type, path@, content@) ==> #[trigger] call_requires(write, (path, content)),
        ensures
            final(self).well_formed(),
            match result {
                Ok(_) => {
                    let next = version::next_version_text(
                        current_version(old(self)@.version),
                        update_type,
                    );
                    &&& next is Some
                    &&& final(self)@ == (WorkspaceView { version: next, ..old(self)@ })
                    &&& exists|original: String, content: Seq<char>| #[trigger]
                        is_workspace_manifest(content, original@, old(self)@, next->0) && is_read(
                            read,
                            old(self)@.path,
                            Ok(original),
                        ) && is_write(write, old(self)@.path, content, Ok(()))
                },
                Err(error) => {
                    let next = version::next_version_text(
                        current_version(old(self)@.version),
                        update_type,
                    );
                    &&& *final(self) == *old(self)
                    &&& (error is RootVersion <==> next is None)
                    &&& match error {
                        UpdateError::Version { .. } => false,
                        UpdateError::RootVersion(invalid) => invalid.version@ == current_version(
                            old(self)@.version,
                        ),
                        UpdateError::Read(e) => is_read(read, old(self)@.path, Err(e)),
                        UpdateError::Manifest(e) => exists|original: String| #[trigger]
                            is_read(read, old(self)@.path, Ok(original)) && is_workspace_fault(
                                e,
                                old(self)@.path,
                                original@,
                            ),
                        UpdateError::Write(e) => exists|original: String, content: Seq<char>|
                            #[trigger] is_workspace_manifest(
                                content,
                                original@,
                                old(self)@,
                                next->0,
                            ) && is_read(read, old(self)@.path, Ok(original)) && is_write(
                                write,
                                old(self)@.path,
                                content,
                                Err(e),
                            ),
                    }
                },
            },
    {
        let current: &str = match &self.version {
            Some(v) => v.as_str(),
            None => version::DEFAULT_VERSION,
        };
        let new_version: String = match next_version(current, update_type) {
            Ok(next) => next,
            Err(invalid) => {
                return Err(UpdateError::RootVersion(invalid));
            },
        };
        let original: String = match read(self.path.as_str()) {
            Ok(content) => content,
            Err(error) => {
                return Err(UpdateError::Read(error));
            },
        };
        let name: Option<&str> = match &self.name {
            Some(n) => Some(n.as_str()),
            None => None,
        };
        let content: String = match write_workspace_version(
            original.as_str(),
            self.path.as_str(),
            name,
            current,
            new_version.as_str(),
            &self.inherited_workspace_members,
        ) {
            Ok(content) => content,
            Err(error) => {
                proof {
                    assert(is_read(read, self@.path, Ok(original)));
                }
                return Err(UpdateError::Manifest(error));
            },
        };
        proof {
            let next = version::next_version_text(current_version(self@.version), update_type);
            assert(is_workspace_manifest(content@, original@, self@, next->0));
            assert(is_read(read, self@.path, Ok(original)));
        }
        match write(self.path.as_str(), content.as_str()) {
            Ok(done) => {
                proof {
                    assert(done == ());
                    assert(is_write(write, self@.path, content@, Ok(())));
                }
                self.set_version(new_version);
                Ok(())
            },
            Err(error) => {
                proof {
                    assert(is_write(write, self@.path, content@, Err(error)));
                }
                Err(UpdateError::Write(error))
            },
        }
    }

    /// Moves the requirements of `[workspace.dependencies]` to the versions of
    /// the packages, and writes the manifest where one moves, and only there.
    /// Where no package is a Rust package with a name there is nothing to read.
    pub fn update_workspace_dependencies<E, R, W>(
        &self,
        packages: &Vec<BumpedPackage>,
        read: R,
        write: W,
    ) -> (result: Result<(), UpdateError<E>>) where
        R: FnOnce(&str) -> Result<String, E>,
        W: FnOnce(&str, &str) -> Result<(), E>,

        requires
            forall|path: &str|
                may_read_dependencies(self@, packages@, path@) ==> #[trigger] call_requires(
                    read,
                    (path,),
                ),
            forall|path: &str, content: &str|
                may_write_dependencies(read, self@, packages@, path@, content@) ==> #[trigger] call_requires(write, (path, content)),
        ensures
            ({
                let rule = PinRuleView::Named(manifest_update::rust_versions(packages@));
                match result {
                    Ok(_) => manifest_update::names_rust_package(packages@) ==> exists|
                        original: String,
                    | #[trigger]
                        is_read(read, self@.path, Ok(original)) && (is_settled(original@, rule)
                            || exists|content: Seq<char>| #[trigger]
                            is_moved_manifest(content, original@, rule) && is_write(
                                write,
                                self@.path,
                                content,
                                Ok(()),
                            )),
                    Err(error) => manifest_update::names_rust_package(packages@) && match error {
                        UpdateError::Version { .. } | UpdateError::RootVersion(_) => false,
                        UpdateError::Read(e) => is_read(read, self@.path, Err(e)),
                        UpdateError::Manifest(e) => exists|original: String| #[trigger]
                            is_read(read, self@.path, Ok(original)) && is_unparsable(
                                e,
                                self@.path,
                                original@,
                            ),
                        UpdateError::Write(e) => exists|original: String, content: Seq<char>|
                            #[trigger] is_moved_manifest(content, original@, rule) && is_read(
                                read,
                                self@.path,
                                Ok(original),
                            ) && is_write(write, self@.path, content, Err(e)),
                    },
                }
            }),
    {
        if !concerns_rust_workspace(packages) {
            return Ok(());
        }
        let original: String = match read(self.path.as_str()) {
            Ok(content) => content,
            Err(error) => {
                return Err(UpdateError::Read(error));
            },
        };
        let ghost rule = PinRuleView::Named(manifest_update::rust_versions(packages@));
        proof {
            assert(is_read(read, self@.path, Ok(original)));
        }
        let content: String = match manifest_with_workspace_dependencies(
            original.as_str(),
            self.path.as_str(),
            packages,
        ) {
            Ok(Some(content)) => content,
            Ok(None) => {
                proof {
                    assert(is_settled(original@, rule));
                }
                return Ok(());
            },
            Err(error) => {
                return Err(UpdateError::Manifest(error));
            },
        };
        proof {
            assert(is_moved_manifest(content@, original@, rule));
        }
        match write(self.path.as_str(), content.as_str()) {
            Ok(done) => {
                proof {
                    assert(done == ());
                    assert(is_write(write, self@.path, content@, Ok(())));
                }
                Ok(())
            },
            Err(error) => {
                proof {
                    assert(is_write(write, self@.path, content@, Err(error)));
                }
                Err(UpdateError::Write(error))
            },
        }
    }
}

impl UpdateError<String> {
    /// What to tell the user.
    pub open spec fn text(self) -> Seq<char> {
        match self {
            UpdateError::Version { path, invalid } => bump_version_with::version_error_text(
                path@,
                invalid.version@,
            ),
            UpdateError::RootVersion(invalid) => "Invalid version: "@ + invalid.version@,
            UpdateError::Manifest(error) => error.text(),
            UpdateError::Read(message) => message@,
            UpdateError::Write(message) => message@,
        }
    }

    /// What to tell the user.
    pub fn message(&self) -> (text: String)
        ensures
            text@ == self.text(),
    {
        match self {
            UpdateError::Version { path, invalid } => version_error_message(path.as_str(), invalid),
            UpdateError::RootVersion(invalid) => invalid.message(),
            UpdateError::Manifest(error) => error.message(),
            UpdateError::Read(message) => message.clone(),
            UpdateError::Write(message) => message.clone(),
        }
    }
}

/// No requirement of `[workspace.dependencies]` in the manifest moves.
pub open spec fn is_settled(original: Seq<char>, rule: PinRuleView) -> bool {
    match toml::parsed_document(original) {
        Ok(nodes) => !manifest_update::has_moving_dependencies(nodes, rule),
        Err(_) => false,
    }
}

/// `content` is the manifest `original` with the requirements of
/// `[workspace.dependencies]` moved.
pub open spec fn is_moved_manifest(
    content: Seq<char>,
    original: Seq<char>,
    rule: PinRuleView,
) -> bool {
    match toml::parsed_document(original) {
        Ok(nodes) => manifest_update::has_moving_dependencies(nodes, rule)
            && manifest_update::writes(
            content,
            manifest_update::with_moved_dependencies(nodes, rule),
            original,
        ),
        Err(_) => false,
    }
}

/// A project without a version is bumped from `0.0.0`, and no package is written
/// that inherits its version.
pub proof fn updates_start_from_the_version(
    version: Option<Seq<char>>,
    update_type: UpdateType,
    package: PackageView,
    path: Seq<char>,
)
    ensures
        version is Some ==> bumped_version(version, update_type) == version::next_version_text(
            version->0,
            update_type,
        ),
        bumped_version(None, update_type) == version::next_version_text("0.0.0"@, update_type),
        package.workspace_version_inherited ==> !may_read_package(package, update_type, path),
        may_read_package(package, update_type, path) ==> path == package.path,
{
}

} // verus!
