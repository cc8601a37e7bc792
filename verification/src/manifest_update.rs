//! New versions written into a `Cargo.toml`.

use crate::assign_preserving_decor;
use crate::assign_preserving_decor::assign_preserving_decor;
use crate::dependency_pins;
use crate::dependency_pins::{
    has_workspace_dependencies_table, sync_dependency_pins, sync_dependency_table_pins,
    workspace_dependencies_table_mut, PinRule, PinRuleView,
};
use crate::ensure_toml_table_like::{ensure_toml_table_like, NonTableItem};
use crate::manifest;
use crate::manifest::is_workspace_marker;
use crate::package::Language;
use crate::text_map::TextMap;
use crate::toml;
use crate::toml::{
    document_root, document_root_mut, empty_table, item_child, item_has_child, item_is_table_like,
    item_slot, parse_document, print_document, TomlNode,
};
use crate::whitespace;
use crate::whitespace::finalize_content;
use crate::workspace::{InheritedWorkspaceMemberIdentities, MembersView};
use toml_edit::{DocumentMut, Item};
use vstd::prelude::*;
use vstd::string::*;

verus! {

/// A manifest that cannot be updated.
#[derive(Debug)]
pub enum ManifestError {
    /// It is not TOML.
    Unparsable { path: String, message: String },
    /// It has something else where a table belongs.
    NonTable(NonTableItem),
}

impl ManifestError {
    /// What to tell the user.
    pub open spec fn text(self) -> Seq<char> {
        match self {
            ManifestError::Unparsable { path, message } => "Failed to parse Cargo.toml "@ + path@
                + ": "@ + message@,
            ManifestError::NonTable(item) => item.label@ + " "@ + item.path@
                + " has a non-table ["@ + item.key@ + "] item"@,
        }
    }

    /// What to tell the user.
    pub fn message(&self) -> (message: String)
        ensures
            message@ == self.text(),
    {
        match self {
            ManifestError::Unparsable { path, message } => {
                let mut text: String = "Failed to parse Cargo.toml ".to_string();
                text.append(path.as_str());
                text.append(": ");
                text.append(message.as_str());
                text
            },
            ManifestError::NonTable(item) => item.message(),
        }
    }
}

/// The document that a manifest writes.
pub fn parse_cargo_toml(content: &str, path: &str) -> (result: Result<DocumentMut, ManifestError>)
    ensures
        match result {
            Ok(document) => toml::parsed_document(content@) == Ok::<
                Map<Seq<Seq<char>>, TomlNode>,
                Seq<char>,
            >(toml::document_nodes(document)) && toml::is_table(toml::document_nodes(document))
                && toml::is_rooted(toml::document_nodes(document)) && toml::document_trailing(document)
                == toml::parsed_trailing(content@),
            Err(ManifestError::Unparsable { path: p, message }) => toml::parsed_document(content@)
                == Err::<Map<Seq<Seq<char>>, TomlNode>, Seq<char>>(message@) && p@ == path@,
            Err(_) => false,
        },
{
    match parse_document(content) {
        Ok(document) => Ok(document),
        Err(message) => Err(ManifestError::Unparsable { path: path.to_string(), message }),
    }
}

/// A table with a text under a key, in place of the value that it had, whose
/// decor stays.
pub open spec fn with_text(
    table: Map<Seq<Seq<char>>, TomlNode>,
    key: Seq<char>,
    text: Seq<char>,
) -> Map<Seq<Seq<char>>, TomlNode> {
    toml::with_entry(
        table,
        key,
        toml::text_nodes(text, assign_preserving_decor::kept_decor(toml::entry(table, key))),
    )
}

/// Sets a text under a key of a table, or of an inline table that is made
/// where there is nothing.
fn set_text(table: &mut Item, key: &str, text: &str)
    requires
        toml::is_table_like(toml::item_nodes(*old(table))) || toml::item_nodes(*old(table)) == Map::<
            Seq<Seq<char>>,
            TomlNode,
        >::empty(),
    ensures
        toml::item_nodes(*final(table)) == with_text(
            toml::table_base(toml::item_nodes(*old(table))),
            key@,
            text@,
        ),
{
    proof {
        toml::lemma_entry_of_nothing(key@);
        assert(toml::entry(toml::empty_inline_table_nodes(), key@) =~= Map::<
            Seq<Seq<char>>,
            TomlNode,
        >::empty());
    }
    let slot: &mut Item = item_slot(table, key);
    assign_preserving_decor(slot, text);
}

/// A document with a version in the table under `key`, which is made where it
/// is missing.
pub open spec fn with_table_version(
    nodes: Map<Seq<Seq<char>>, TomlNode>,
    key: Seq<char>,
    version: Seq<char>,
) -> Map<Seq<Seq<char>>, TomlNode> {
    let table = if toml::has_entry(nodes, key) {
        toml::entry(nodes, key)
    } else {
        toml::empty_table_nodes()
    };
    toml::with_entry(nodes, key, with_text(table, "version"@, version))
}

/// Sets the version in the table under `key`.
pub fn write_toml_table_version(
    document: &mut DocumentMut,
    path: &str,
    label: &str,
    key: &str,
    new_version: &str,
) -> (result: Result<(), NonTableItem>)
    requires
        toml::is_table(toml::document_nodes(*old(document))),
    ensures
        match result {
            Ok(_) => {
                let nodes = toml::document_nodes(*old(document));
                &&& toml::has_entry(nodes, key@) ==> toml::is_table_like(toml::entry(nodes, key@))
                &&& toml::document_nodes(*final(document)) == with_table_version(
                    nodes,
                    key@,
                    new_version@,
                )
                &&& toml::is_table(toml::document_nodes(*final(document)))
                &&& toml::document_trailing(*final(document)) == toml::document_trailing(
                    *old(document),
                )
            },
            Err(error) => {
                let nodes = toml::document_nodes(*old(document));
                &&& toml::has_entry(nodes, key@)
                &&& !toml::is_table_like(toml::entry(nodes, key@))
                &&& error.label@ == label@
                &&& error.path@ == path@
                &&& error.key@ == key@
                &&& *final(document) == *old(document)
            },
        },
{
    match ensure_toml_table_like(document, path, key, label) {
        Ok(present) => {
            let table: &mut Item = item_slot(document_root_mut(document), key);
            if !present {
                *table = empty_table();
            }
            set_text(table, "version", new_version);
            Ok(())
        },
        Err(error) => Err(error),
    }
}

/// `content` is a document with these nodes, which say how each is written too,
/// and with what follows the last entry of the original content. It is finished
/// with the whitespace at the end of the original content.
pub open spec fn writes(
    content: Seq<char>,
    nodes: Map<Seq<Seq<char>>, TomlNode>,
    original: Seq<char>,
) -> bool {
    exists|document: DocumentMut|
        toml::document_nodes(document) == nodes && toml::document_trailing(document)
            == toml::parsed_trailing(original) && content == whitespace::finalized(
            #[trigger] toml::document_text(document),
            original,
        )
}

/// A `Cargo.toml` with another `[package].version`.
pub fn write_cargo_package_version(content: &str, path: &str, new_version: &str) -> (result: Result<
    String,
    ManifestError,
>)
    ensures
        match toml::parsed_document(content@) {
            Ok(nodes) => if toml::has_entry(nodes, "package"@) && !toml::is_table_like(
                toml::entry(nodes, "package"@),
            ) {
                result matches Err(ManifestError::NonTable(item)) && item.label@ == "Cargo.toml"@
                    && item.path@ == path@ && item.key@ == "package"@
            } else {
                result matches Ok(text) && writes(
                    text@,
                    with_table_version(nodes, "package"@, new_version@),
                    content@,
                )
            },
            Err(m) => result matches Err(ManifestError::Unparsable { path: p, message }) && p@
                == path@ && message@ == m,
        },
{
    let mut document: DocumentMut = match parse_cargo_toml(content, path) {
        Ok(document) => document,
        Err(error) => {
            return Err(error);
        },
    };
    match write_toml_table_version(&mut document, path, "Cargo.toml", "package", new_version) {
        Ok(_) => {
            let text: String = print_document(&document);
            proof {
                assert(toml::document_text(document) == text@);
            }
            Ok(finalize_content(text.as_str(), content))
        },
        Err(item) => Err(ManifestError::NonTable(item)),
    }
}

/// The name that a root package gets where it has none.
pub open spec fn fallback_name(name: Option<&str>) -> Seq<char> {
    match name {
        Some(n) => n@,
        None => "_"@,
    }
}

/// A root package at another version: where it inherits its version it keeps
/// doing so, and it has a name.
pub open spec fn updated_root_package(
    package: Map<Seq<Seq<char>>, TomlNode>,
    name: Seq<char>,
    new_version: Seq<char>,
) -> Map<Seq<Seq<char>>, TomlNode> {
    let versioned = if manifest::is_inherited(toml::entry(package, "version"@)) {
        package
    } else {
        with_text(package, "version"@, new_version)
    };
    if toml::has_entry(versioned, "name"@) {
        versioned
    } else {
        with_text(versioned, "name"@, name)
    }
}

/// A document with another `[workspace.package].version`; a missing
/// `[workspace.package]` becomes an inline table.
pub open spec fn with_workspace_version(
    nodes: Map<Seq<Seq<char>>, TomlNode>,
    new_version: Seq<char>,
) -> Map<Seq<Seq<char>>, TomlNode> {
    toml::with_entry(
        nodes,
        "workspace"@,
        toml::with_entry(
            toml::entry(nodes, "workspace"@),
            "package"@,
            with_text(
                toml::table_base(manifest::workspace_package(nodes)),
                "version"@,
                new_version,
            ),
        ),
    )
}

/// A document whose root is at another version: its package where it has one,
/// else its workspace, else a package that is made for it.
pub open spec fn with_root_version(
    nodes: Map<Seq<Seq<char>>, TomlNode>,
    name: Seq<char>,
    new_version: Seq<char>,
) -> Map<Seq<Seq<char>>, TomlNode> {
    if toml::has_entry(nodes, "package"@) {
        toml::with_entry(
            nodes,
            "package"@,
            updated_root_package(toml::entry(nodes, "package"@), name, new_version),
        )
    } else if toml::has_entry(nodes, "workspace"@) {
        with_workspace_version(nodes, new_version)
    } else {
        toml::with_entry(
            nodes,
            "package"@,
            with_text(
                with_text(toml::empty_table_nodes(), "version"@, new_version),
                "name"@,
                name,
            ),
        )
    }
}

/// A document with another `[workspace.package].version`, where it has one.
pub open spec fn with_existing_workspace_version(
    nodes: Map<Seq<Seq<char>>, TomlNode>,
    new_version: Seq<char>,
) -> Map<Seq<Seq<char>>, TomlNode> {
    if toml::has_entry(manifest::workspace_package(nodes), "version"@) {
        with_workspace_version(nodes, new_version)
    } else {
        nodes
    }
}

/// A document with the requirements of `[workspace.dependencies]` moved by the
/// rule.
pub open spec fn with_moved_dependencies(
    nodes: Map<Seq<Seq<char>>, TomlNode>,
    rule: PinRuleView,
) -> Map<Seq<Seq<char>>, TomlNode> {
    dependency_pins::pinned_workspace(nodes, rule)
}

/// The manifest of a workspace root at another version: the root itself,
/// `[workspace.package].version`, and the requirements of inheriting members.
pub open spec fn updated_workspace(
    nodes: Map<Seq<Seq<char>>, TomlNode>,
    name: Seq<char>,
    old_version: Seq<char>,
    new_version: Seq<char>,
    members: MembersView,
) -> Map<Seq<Seq<char>>, TomlNode> {
    with_moved_dependencies(
        with_existing_workspace_version(
            with_root_version(nodes, name, new_version),
            new_version,
        ),
        PinRuleView::Inherited { members, old_version, new_version },
    )
}

/// A version can be set at the root: a virtual workspace is a table, and so is
/// its package table where it has one.
pub open spec fn has_room_for_version(nodes: Map<Seq<Seq<char>>, TomlNode>) -> bool {
    toml::has_entry(nodes, "package"@) || !toml::has_entry(nodes, "workspace"@) || (
    toml::is_table_like(toml::entry(nodes, "workspace"@)) && (toml::has_entry(
        toml::entry(nodes, "workspace"@),
        "package"@,
    ) ==> toml::is_table_like(manifest::workspace_package(nodes))))
}

/// Sets the version, and a missing name, of the root package.
fn update_root_package(package: &mut Item, name: &str, new_version: &str)
    requires
        toml::is_table_like(toml::item_nodes(*old(package))),
    ensures
        toml::item_nodes(*final(package)) == updated_root_package(
            toml::item_nodes(*old(package)),
            name@,
            new_version@,
        ),
{
    let inherits: bool = match item_child(package, "version") {
        Some(version) => is_workspace_marker(version),
        None => {
            proof {
                toml::lemma_entry_of_nothing("workspace"@);
            }
            false
        },
    };
    if !inherits {
        set_text(package, "version", new_version);
    }
    if !item_has_child(package, "name") {
        set_text(package, "name", name);
    }
}

/// Sets `[workspace.package].version`.
fn set_workspace_version(document: &mut DocumentMut, new_version: &str)
    requires
        toml::is_table(toml::document_nodes(*old(document))),
        toml::is_table_like(toml::entry(toml::document_nodes(*old(document)), "workspace"@)),
        toml::is_table_like(manifest::workspace_package(toml::document_nodes(*old(document))))
            || manifest::workspace_package(toml::document_nodes(*old(document))) == Map::<
            Seq<Seq<char>>,
            TomlNode,
        >::empty(),
    ensures
        toml::document_nodes(*final(document)) == with_workspace_version(
            toml::document_nodes(*old(document)),
            new_version@,
        ),
        toml::document_trailing(*final(document)) == toml::document_trailing(*old(document)),
{
    set_text(
        item_slot(item_slot(document_root_mut(document), "workspace"), "package"),
        "version",
        new_version,
    );
}

/// Sets the version of the root.
fn set_root_version(document: &mut DocumentMut, name: &str, new_version: &str)
    requires
        toml::is_table(toml::document_nodes(*old(document))),
        toml::has_entry(toml::document_nodes(*old(document)), "package"@) ==> toml::is_table_like(
            toml::entry(toml::document_nodes(*old(document)), "package"@),
        ),
        has_room_for_version(toml::document_nodes(*old(document))),
    ensures
        toml::document_nodes(*final(document)) == with_root_version(
            toml::document_nodes(*old(document)),
            name@,
            new_version@,
        ),
        toml::is_table(toml::document_nodes(*final(document))),
        toml::document_trailing(*final(document)) == toml::document_trailing(*old(document)),
{
    if item_has_child(document_root(document), "package") {
        update_root_package(
            item_slot(document_root_mut(document), "package"),
            name,
            new_version,
        );
        return ;
    }
    if item_has_child(document_root(document), "workspace") {
        proof {
            let nodes = toml::document_nodes(*document);
            let workspace = toml::entry(nodes, "workspace"@);
            toml::lemma_rooted_entry(nodes, "workspace"@);
            if !toml::has_entry(workspace, "package"@) {
                toml::lemma_missing_entry(workspace, "package"@);
            }
        }
        set_workspace_version(document, new_version);
    } else {
        let package: &mut Item = item_slot(document_root_mut(document), "package");
        *package = empty_table();
        set_text(package, "version", new_version);
        set_text(package, "name", name);
    }
}

/// Whether there is a `[workspace.package].version`.
fn has_workspace_version(document: &DocumentMut) -> (versioned: bool)
    ensures
        versioned == toml::has_entry(
            manifest::workspace_package(toml::document_nodes(*document)),
            "version"@,
        ),
        versioned ==> toml::is_table_like(
            toml::entry(toml::document_nodes(*document), "workspace"@),
        ) && toml::is_table_like(manifest::workspace_package(toml::document_nodes(*document))),
{
    proof {
        toml::lemma_entry_of_nothing("package"@);
        toml::lemma_entry_of_nothing("version"@);
    }
    match item_child(document_root(document), "workspace") {
        Some(workspace) => match item_child(workspace, "package") {
            Some(package) => item_has_child(package, "version"),
            None => false,
        },
        None => false,
    }
}

/// Sets the version of a workspace root and of everything that follows it.
pub fn update_workspace_version(
    document: &mut DocumentMut,
    name: Option<&str>,
    old_version: &str,
    new_version: &str,
    members: &InheritedWorkspaceMemberIdentities,
)
    requires
        toml::is_table(toml::document_nodes(*old(document))),
        toml::has_entry(toml::document_nodes(*old(document)), "package"@) ==> toml::is_table_like(
            toml::entry(toml::document_nodes(*old(document)), "package"@),
        ),
        has_room_for_version(toml::document_nodes(*old(document))),
    ensures
        toml::document_nodes(*final(document)) == updated_workspace(
            toml::document_nodes(*old(document)),
            fallback_name(name),
            old_version@,
            new_version@,
            members@,
        ),
        toml::is_table(toml::document_nodes(*final(document))),
        toml::document_trailing(*final(document)) == toml::document_trailing(*old(document)),
{
    let fallback: &str = match name {
        Some(n) => n,
        None => "_",
    };
    set_root_version(document, fallback, new_version);
    if has_workspace_version(document) {
        set_workspace_version(document, new_version);
    }
    if has_workspace_dependencies_table(document) {
        let rule = PinRule::Inherited { members, old_version, new_version };
        let dependencies: &mut Item = workspace_dependencies_table_mut(document);
        let moved: bool = sync_dependency_table_pins(dependencies, &rule);
    }
}

/// A package whose version may have moved.
#[derive(Debug)]
pub struct BumpedPackage {
    pub language: Language,
    pub name: Option<String>,
    pub version: Option<String>,
}

/// The versions of the Rust packages with a name and a version, by name; of
/// two packages with the same name the later one counts.
pub open spec fn rust_versions(packages: Seq<BumpedPackage>) -> Map<Seq<char>, Seq<char>>
    decreases packages.len(),
{
    if packages.len() == 0 {
        Map::empty()
    } else {
        let package = packages.last();
        let earlier = rust_versions(packages.drop_last());
        match (package.name, package.version) {
            (Some(name), Some(version)) => if package.language == Language::Rust {
                earlier.insert(name@, version@)
            } else {
                earlier
            },
            _ => earlier,
        }
    }
}

/// The versions of the Rust packages, by name.
pub fn bumped_rust_package_versions(packages: &Vec<BumpedPackage>) -> (versions: TextMap)
    ensures
        versions.well_formed(),
        versions@ == rust_versions(packages@),
{
    let mut versions: TextMap = TextMap::new();
    let mut i: usize = 0;
    while i < packages.len()
        invariant
            i <= packages@.len(),
            versions.well_formed(),
            versions@ == rust_versions(packages@.take(i as int)),
        decreases packages@.len() - i,
    {
        let package: &BumpedPackage = &packages[i];
        proof {
            assert(packages@.take(i as int + 1).drop_last() =~= packages@.take(i as int));
        }
        if package.language == Language::Rust {
            match (&package.name, &package.version) {
                (Some(name), Some(version)) => {
                    versions.insert(name.clone(), version.clone());
                },
                _ => {},
            }
        }
        i = i + 1;
    }
    proof {
        assert(packages@.take(i as int) =~= packages@);
    }
    versions
}

/// Whether a Rust package has a name.
pub open spec fn names_rust_package(packages: Seq<BumpedPackage>) -> bool {
    exists|i: int|
        0 <= i < packages.len() && (#[trigger] packages[i]).language == Language::Rust
            && packages[i].name is Some
}

/// Whether the packages can concern a Rust workspace at all: one of them is a
/// Rust package with a name.
pub fn concerns_rust_workspace(packages: &Vec<BumpedPackage>) -> (concerned: bool)
    ensures
        concerned == names_rust_package(packages@),
{
    let mut i: usize = 0;
    while i < packages.len()
        invariant
            i <= packages@.len(),
            forall|k: int|
                0 <= k < i ==> !((#[trigger] packages@[k]).language == Language::Rust
                    && packages@[k].name is Some),
        decreases packages@.len() - i,
    {
        if packages[i].language == Language::Rust && packages[i].name.is_some() {
            return true;
        }
        i = i + 1;
    }
    false
}

/// Moves the requirements of `[workspace.dependencies]` to the new versions of
/// the packages they name. Whether any moved.
pub fn update_workspace_dependencies(document: &mut DocumentMut, package_versions: &TextMap) -> (
written: bool)
    requires
        toml::is_table(toml::document_nodes(*old(document))),
        package_versions.well_formed(),
    ensures
        toml::document_nodes(*final(document)) == with_moved_dependencies(
            toml::document_nodes(*old(document)),
            PinRuleView::Named(package_versions@),
        ),
        toml::is_table(toml::document_nodes(*final(document))),
        toml::document_trailing(*final(document)) == toml::document_trailing(*old(document)),
        written == has_moving_dependencies(
            toml::document_nodes(*old(document)),
            PinRuleView::Named(package_versions@),
        ),
{
    if has_workspace_dependencies_table(document) {
        let rule = PinRule::Named(package_versions);
        let dependencies: &mut Item = workspace_dependencies_table_mut(document);
        sync_dependency_table_pins(dependencies, &rule)
    } else {
        false
    }
}

/// A requirement of `[workspace.dependencies]` moves by the rule.
pub open spec fn has_moving_dependencies(
    nodes: Map<Seq<Seq<char>>, TomlNode>,
    rule: PinRuleView,
) -> bool {
    toml::is_table(manifest::workspace_dependencies(nodes)) && dependency_pins::is_stale_table(
        manifest::workspace_dependencies(nodes),
        rule,
    )
}

/// A `Cargo.toml` with the requirements of `[workspace.dependencies]` moved to
/// the new versions of the packages, or nothing where none moves.
pub fn manifest_with_workspace_dependencies(
    content: &str,
    path: &str,
    packages: &Vec<BumpedPackage>,
) -> (result: Result<Option<String>, ManifestError>)
    ensures
        match toml::parsed_document(content@) {
            Ok(nodes) => {
                let rule = PinRuleView::Named(rust_versions(packages@));
                match result {
                    Ok(Some(text)) => has_moving_dependencies(nodes, rule) && writes(
                        text@,
                        with_moved_dependencies(nodes, rule),
                        content@,
                    ),
                    Ok(None) => !has_moving_dependencies(nodes, rule),
                    Err(_) => false,
                }
            },
            Err(m) => result matches Err(ManifestError::Unparsable { path: p, message }) && p@
                == path@ && message@ == m,
        },
{
    let mut document: DocumentMut = match parse_cargo_toml(content, path) {
        Ok(document) => document,
        Err(error) => {
            return Err(error);
        },
    };
    let versions: TextMap = bumped_rust_package_versions(packages);
    if !update_workspace_dependencies(&mut document, &versions) {
        return Ok(None);
    }
    let text: String = print_document(&document);
    proof {
        assert(toml::document_text(document) == text@);
    }
    Ok(Some(finalize_content(text.as_str(), content)))
}

/// A `Cargo.toml` with the requirements of local packages moved to the new
/// versions that they do not admit, or nothing where none moves.
pub fn sync_manifest_dependency_pins(content: &str, path: &str, package_versions: &TextMap) -> (
result: Result<Option<String>, ManifestError>)
    requires
        package_versions.well_formed(),
    ensures
        match toml::parsed_document(content@) {
            Ok(nodes) => {
                let rule = PinRuleView::Uncovered(package_versions@);
                match result {
                    Ok(Some(text)) => dependency_pins::is_stale_document(nodes, rule) && writes(
                        text@,
                        dependency_pins::pinned_document(nodes, rule),
                        content@,
                    ),
                    Ok(None) => !dependency_pins::is_stale_document(nodes, rule),
                    Err(_) => false,
                }
            },
            Err(m) => result matches Err(ManifestError::Unparsable { path: p, message }) && p@
                == path@ && message@ == m,
        },
{
    let mut document: DocumentMut = match parse_cargo_toml(content, path) {
        Ok(document) => document,
        Err(error) => {
            return Err(error);
        },
    };
    if !sync_dependency_pins(&mut document, package_versions) {
        return Ok(None);
    }
    let text: String = print_document(&document);
    proof {
        assert(toml::document_text(document) == text@);
    }
    Ok(Some(finalize_content(text.as_str(), content)))
}

/// Whether a version can be set at the root.
fn room_for_version(document: &DocumentMut) -> (room: bool)
    ensures
        room == has_room_for_version(toml::document_nodes(*document)),
{
    let root: &Item = document_root(document);
    if item_has_child(root, "package") {
        return true;
    }
    match item_child(root, "workspace") {
        Some(workspace) => item_is_table_like(workspace) && match item_child(workspace, "package") {
            Some(package) => item_is_table_like(package),
            None => true,
        },
        None => true,
    }
}

/// The item in the way of a version at the root: the package that is not a
/// table, or the workspace that has no table for its package.
fn non_table(path: &str, key: &str) -> (error: ManifestError)
    ensures
        error matches ManifestError::NonTable(item) && item.label@ == "Cargo.toml"@ && item.path@
            == path@ && item.key@ == key@,
{
    ManifestError::NonTable(
        NonTableItem {
            label: "Cargo.toml".to_string(),
            path: path.to_string(),
            key: key.to_string(),
        },
    )
}

/// The `Cargo.toml` of a workspace root at another version.
pub fn write_workspace_version(
    content: &str,
    path: &str,
    name: Option<&str>,
    old_version: &str,
    new_version: &str,
    members: &InheritedWorkspaceMemberIdentities,
) -> (result: Result<String, ManifestError>)
    ensures
        match toml::parsed_document(content@) {
            Ok(nodes) => if toml::has_entry(nodes, "package"@) && !toml::is_table_like(
                toml::entry(nodes, "package"@),
            ) {
                result matches Err(ManifestError::NonTable(item)) && item.label@ == "Cargo.toml"@
                    && item.path@ == path@ && item.key@ == "package"@
            } else if !has_room_for_version(nodes) {
                result matches Err(ManifestError::NonTable(item)) && item.label@ == "Cargo.toml"@
                    && item.path@ == path@ && item.key@ == "workspace.package"@
            } else {
                result matches Ok(text) && writes(
                    text@,
                    updated_workspace(
                        nodes,
                        fallback_name(name),
                        old_version@,
                        new_version@,
                        members@,
                    ),
                    content@,
                )
            },
            Err(m) => result matches Err(ManifestError::Unparsable { path: p, message }) && p@
                == path@ && message@ == m,
        },
{
    let mut document: DocumentMut = match parse_cargo_toml(content, path) {
        Ok(document) => document,
        Err(error) => {
            return Err(error);
        },
    };
    match ensure_toml_table_like(&document, path, "package", "Cargo.toml") {
        Ok(_) => {},
        Err(item) => {
            return Err(ManifestError::NonTable(item));
        },
    }
    if !room_for_version(&document) {
        return Err(non_table(path, "workspace.package"));
    }
    update_workspace_version(&mut document, name, old_version, new_version, members);
    let text: String = print_document(&document);
    proof {
        assert(toml::document_text(document) == text@);
    }
    Ok(finalize_content(text.as_str(), content))
}

/// The keys that an update touches differ.
pub proof fn lemma_update_keys()
    ensures
        "package"@ != "workspace"@,
        "package"@ != "dependencies"@,
        "version"@ != "name"@,
{
    reveal_strlit("package");
    reveal_strlit("workspace");
    reveal_strlit("dependencies");
    reveal_strlit("version");
    reveal_strlit("name");
    assert("package"@[0] == 'p');
    assert("workspace"@[0] == 'w');
    assert("dependencies"@[0] == 'd');
    assert("version"@[0] == 'v');
    assert("name"@[0] == 'n');
}

/// What an update makes of the top-level `package`.
pub proof fn lemma_updated_package(
    nodes: Map<Seq<Seq<char>>, TomlNode>,
    name: Seq<char>,
    old_version: Seq<char>,
    new_version: Seq<char>,
    members: MembersView,
)
    ensures
        toml::entry(
            updated_workspace(nodes, name, old_version, new_version, members),
            "package"@,
        ) == toml::entry(with_root_version(nodes, name, new_version), "package"@),
{
    lemma_update_keys();
    let rooted = with_root_version(nodes, name, new_version);
    let versioned = with_existing_workspace_version(rooted, new_version);
    let rule = PinRuleView::Inherited { members, old_version, new_version };
    toml::lemma_other_entry(
        rooted,
        "workspace"@,
        toml::entry(with_workspace_version(rooted, new_version), "workspace"@),
        "package"@,
    );
    toml::lemma_entry_set(
        rooted,
        "workspace"@,
        toml::with_entry(
            toml::entry(rooted, "workspace"@),
            "package"@,
            with_text(
                toml::table_base(manifest::workspace_package(rooted)),
                "version"@,
                new_version,
            ),
        ),
        Map::empty(),
    );
    dependency_pins::lemma_workspace_frame(versioned, rule, "package"@);
}

/// A root package that inherits its version keeps doing so.
pub proof fn inherited_root_version_is_kept(
    nodes: Map<Seq<Seq<char>>, TomlNode>,
    name: Seq<char>,
    old_version: Seq<char>,
    new_version: Seq<char>,
    members: MembersView,
)
    requires
        toml::has_entry(nodes, "package"@),
        manifest::is_inherited(manifest::entry2(nodes, "package"@, "version"@)),
    ensures
        manifest::entry2(
            updated_workspace(nodes, name, old_version, new_version, members),
            "package"@,
            "version"@,
        ) == manifest::entry2(nodes, "package"@, "version"@),
{
    lemma_update_keys();
    lemma_updated_package(nodes, name, old_version, new_version, members);
    let package = toml::entry(nodes, "package"@);
    let updated = updated_root_package(package, name, new_version);
    toml::lemma_entry_set(nodes, "package"@, updated, updated);
    toml::lemma_other_entry(
        package,
        "name"@,
        toml::text_nodes(
            name,
            assign_preserving_decor::kept_decor(toml::entry(package, "name"@)),
        ),
        "version"@,
    );
}

/// A root package with a version of its own is at the new version afterwards,
/// and the decor of the version stays.
pub proof fn root_version_is_set(
    nodes: Map<Seq<Seq<char>>, TomlNode>,
    name: Seq<char>,
    old_version: Seq<char>,
    new_version: Seq<char>,
    members: MembersView,
)
    requires
        toml::has_entry(nodes, "package"@),
        !manifest::is_inherited(manifest::entry2(nodes, "package"@, "version"@)),
    ensures
        manifest::entry2(
            updated_workspace(nodes, name, old_version, new_version, members),
            "package"@,
            "version"@,
        ) == toml::text_nodes(
            new_version,
            assign_preserving_decor::kept_decor(
                manifest::entry2(nodes, "package"@, "version"@),
            ),
        ),
{
    lemma_update_keys();
    lemma_updated_package(nodes, name, old_version, new_version, members);
    let package = toml::entry(nodes, "package"@);
    let updated = updated_root_package(package, name, new_version);
    let child = toml::text_nodes(
        new_version,
        assign_preserving_decor::kept_decor(toml::entry(package, "version"@)),
    );
    let versioned = with_text(package, "version"@, new_version);
    toml::lemma_entry_set(nodes, "package"@, updated, updated);
    toml::lemma_entry_set(package, "version"@, child, child);
    toml::lemma_other_entry(
        versioned,
        "name"@,
        toml::text_nodes(
            name,
            assign_preserving_decor::kept_decor(toml::entry(versioned, "name"@)),
        ),
        "version"@,
    );
}

/// A root package keeps the name it has.
pub proof fn root_name_is_kept(
    nodes: Map<Seq<Seq<char>>, TomlNode>,
    name: Seq<char>,
    old_version: Seq<char>,
    new_version: Seq<char>,
    members: MembersView,
)
    requires
        toml::has_entry(nodes, "package"@),
        toml::has_entry(toml::entry(nodes, "package"@), "name"@),
    ensures
        manifest::entry2(
            updated_workspace(nodes, name, old_version, new_version, members),
            "package"@,
            "name"@,
        ) == manifest::entry2(nodes, "package"@, "name"@),
{
    lemma_update_keys();
    lemma_updated_package(nodes, name, old_version, new_version, members);
    let package = toml::entry(nodes, "package"@);
    let updated = updated_root_package(package, name, new_version);
    toml::lemma_entry_set(nodes, "package"@, updated, updated);
    toml::lemma_other_entry(
        package,
        "version"@,
        toml::text_nodes(
            new_version,
            assign_preserving_decor::kept_decor(toml::entry(package, "version"@)),
        ),
        "name"@,
    );
}

/// A workspace root without a package does not get one.
pub proof fn virtual_workspace_stays_virtual(
    nodes: Map<Seq<Seq<char>>, TomlNode>,
    name: Seq<char>,
    old_version: Seq<char>,
    new_version: Seq<char>,
    members: MembersView,
)
    requires
        !toml::has_entry(nodes, "package"@),
        toml::has_entry(nodes, "workspace"@),
    ensures
        !toml::has_entry(
            updated_workspace(nodes, name, old_version, new_version, members),
            "package"@,
        ),
{
    lemma_update_keys();
    lemma_updated_package(nodes, name, old_version, new_version, members);
    toml::lemma_other_entry(
        nodes,
        "workspace"@,
        toml::with_entry(
            toml::entry(nodes, "workspace"@),
            "package"@,
            with_text(
                toml::table_base(manifest::workspace_package(nodes)),
                "version"@,
                new_version,
            ),
        ),
        "package"@,
    );
}

/// Where a workspace root has a `[workspace.package].version`, or has no
/// package, that version is the new one afterwards.
pub proof fn workspace_version_is_set(
    nodes: Map<Seq<Seq<char>>, TomlNode>,
    name: Seq<char>,
    old_version: Seq<char>,
    new_version: Seq<char>,
    members: MembersView,
)
    requires
        toml::has_entry(manifest::workspace_package(nodes), "version"@) || (!toml::has_entry(
            nodes,
            "package"@,
        ) && toml::has_entry(nodes, "workspace"@)),
    ensures
        manifest::workspace_package_text(
            updated_workspace(nodes, name, old_version, new_version, members),
            "version"@,
        ) == Some(new_version),
{
    lemma_update_keys();
    let rooted = with_root_version(nodes, name, new_version);
    let versioned = with_existing_workspace_version(rooted, new_version);
    let rule = PinRuleView::Inherited { members, old_version, new_version };
    lemma_workspace_version_set(nodes, new_version);
    lemma_workspace_version_set(rooted, new_version);
    if toml::has_entry(nodes, "package"@) || !toml::has_entry(nodes, "workspace"@) {
        toml::lemma_other_entry(
            nodes,
            "package"@,
            toml::entry(rooted, "package"@),
            "workspace"@,
        );
        let package = if toml::has_entry(nodes, "package"@) {
            updated_root_package(toml::entry(nodes, "package"@), name, new_version)
        } else {
            with_text(
                with_text(toml::empty_table_nodes(), "version"@, new_version),
                "name"@,
                name,
            )
        };
        toml::lemma_entry_set(nodes, "package"@, package, package);
    }
    assert(toml::has_entry(manifest::workspace_package(rooted), "version"@));
    let dependencies = manifest::workspace_dependencies(versioned);
    if toml::is_table(dependencies) {
        let pinned = dependency_pins::pinned_table(dependencies, rule);
        let workspace = toml::with_entry(
            toml::entry(versioned, "workspace"@),
            "dependencies"@,
            pinned,
        );
        toml::lemma_entry_set(versioned, "workspace"@, workspace, workspace);
        toml::lemma_other_entry(
            toml::entry(versioned, "workspace"@),
            "dependencies"@,
            pinned,
            "package"@,
        );
    }
}

/// Setting `[workspace.package].version` sets it.
proof fn lemma_workspace_version_set(
    nodes: Map<Seq<Seq<char>>, TomlNode>,
    new_version: Seq<char>,
)
    ensures
        toml::has_entry(
            manifest::workspace_package(with_workspace_version(nodes, new_version)),
            "version"@,
        ),
        manifest::workspace_package_text(with_workspace_version(nodes, new_version), "version"@)
            == Some(new_version),
{
    let base = toml::table_base(manifest::workspace_package(nodes));
    let child = toml::text_nodes(
        new_version,
        assign_preserving_decor::kept_decor(toml::entry(base, "version"@)),
    );
    let package = with_text(base, "version"@, new_version);
    let workspace = toml::with_entry(toml::entry(nodes, "workspace"@), "package"@, package);
    toml::lemma_entry_set(base, "version"@, child, child);
    toml::lemma_entry_set(toml::entry(nodes, "workspace"@), "package"@, package, package);
    toml::lemma_entry_set(nodes, "workspace"@, workspace, workspace);
}

/// A dependency of the workspace that is not one of an inheriting member for
/// the old version stays as it is.
pub proof fn other_dependencies_are_kept(
    nodes: Map<Seq<Seq<char>>, TomlNode>,
    key: Seq<char>,
    old_version: Seq<char>,
    new_version: Seq<char>,
    members: MembersView,
)
    requires
        ({
            let dependency = toml::entry(manifest::workspace_dependencies(nodes), key);
            ||| !members.covers(key, manifest::dependency_name(key, dependency))
            ||| match dependency_pins::local_requirement(dependency) {
                Some(requirement) => requirement.skip(
                    crate::version::prefix_length(requirement),
                ) != old_version,
                None => true,
            }
        }),
    ensures
        toml::entry(
            manifest::workspace_dependencies(
                with_moved_dependencies(
                    nodes,
                    PinRuleView::Inherited { members, old_version, new_version },
                ),
            ),
            key,
        ) == toml::entry(manifest::workspace_dependencies(nodes), key),
{
    let rule = PinRuleView::Inherited { members, old_version, new_version };
    let dependencies = manifest::workspace_dependencies(nodes);
    if toml::is_table(dependencies) {
        let pinned = dependency_pins::pinned_table(dependencies, rule);
        let workspace = toml::with_entry(
            toml::entry(nodes, "workspace"@),
            "dependencies"@,
            pinned,
        );
        toml::lemma_entry_set(nodes, "workspace"@, workspace, workspace);
        toml::lemma_entry_set(toml::entry(nodes, "workspace"@), "dependencies"@, pinned, pinned);
        dependency_pins::lemma_pinned_entry(dependencies, rule, key);
    }
}

} // verus!
