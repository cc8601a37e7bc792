//! What is read out of a `Cargo.toml`.

use crate::text::same_text;
use crate::text_map::TextMap;
use crate::text_set;
use crate::text_set::{holds_text, insert_text};
use crate::toml;
use crate::toml::{
    document_root, item_child, item_flag, item_is_table_like, item_keys, item_list_length,
    item_text, TomlNode,
};
use toml_edit::{DocumentMut, Item};
use vstd::prelude::*;
use vstd::string::*;

verus! {

/// The nodes of the entry under two keys.
pub open spec fn entry2(
    nodes: Map<Seq<Seq<char>>, TomlNode>,
    key: Seq<char>,
    inner: Seq<char>,
) -> Map<Seq<Seq<char>>, TomlNode> {
    toml::entry(toml::entry(nodes, key), inner)
}

/// The text of `[package].<field>`.
pub open spec fn package_text(
    nodes: Map<Seq<Seq<char>>, TomlNode>,
    field: Seq<char>,
) -> Option<Seq<char>> {
    toml::text_of(entry2(nodes, "package"@, field))
}

/// The nodes of `[workspace.package]`.
pub open spec fn workspace_package(
    nodes: Map<Seq<Seq<char>>, TomlNode>,
) -> Map<Seq<Seq<char>>, TomlNode> {
    entry2(nodes, "workspace"@, "package"@)
}

/// The text of `[workspace.package].<field>`.
pub open spec fn workspace_package_text(
    nodes: Map<Seq<Seq<char>>, TomlNode>,
    field: Seq<char>,
) -> Option<Seq<char>> {
    toml::text_of(toml::entry(workspace_package(nodes), field))
}

/// The nodes of `[workspace.dependencies]`.
pub open spec fn workspace_dependencies(
    nodes: Map<Seq<Seq<char>>, TomlNode>,
) -> Map<Seq<Seq<char>>, TomlNode> {
    entry2(nodes, "workspace"@, "dependencies"@)
}

/// A `publish` value that allows publishing: anything but `false` and an empty
/// list of registries.
pub open spec fn allows_publishing(publish: Map<Seq<Seq<char>>, TomlNode>) -> bool {
    toml::flag_of(publish) != Some(false) && toml::list_length_of(publish) != Some(0nat)
}

/// A value that is inherited from the workspace: `{ workspace = true }`.
pub open spec fn is_inherited(value: Map<Seq<Seq<char>>, TomlNode>) -> bool {
    toml::flag_of(toml::entry(value, "workspace"@)) == Some(true)
}

/// Whether members that inherit `publish` may be published.
pub open spec fn workspace_allows_publishing(nodes: Map<Seq<Seq<char>>, TomlNode>) -> bool {
    toml::has_entry(workspace_package(nodes), "publish"@) ==> allows_publishing(
        toml::entry(workspace_package(nodes), "publish"@),
    )
}

/// A dependency with a local path.
pub open spec fn has_local_path(dependency: Map<Seq<Seq<char>>, TomlNode>) -> bool {
    toml::has_entry(dependency, "path"@)
}

/// A dependency with a version requirement.
pub open spec fn bears_version(dependency: Map<Seq<Seq<char>>, TomlNode>) -> bool {
    toml::text_of(dependency) is Some || toml::text_of(toml::entry(dependency, "version"@)) is Some
}

/// The package that a dependency names: its `package`, or else its key.
pub open spec fn dependency_name(
    key: Seq<char>,
    dependency: Map<Seq<Seq<char>>, TomlNode>,
) -> Seq<char> {
    match toml::text_of(toml::entry(dependency, "package"@)) {
        Some(name) => name,
        None => key,
    }
}

/// The view of an optional text.
pub open spec fn optional_text(text: Option<String>) -> Option<Seq<char>> {
    text_set::optional_view(text)
}

/// `item.<field>` as an owned text.
pub fn toml_item_str(item: Option<&Item>, field: &str) -> (text: Option<String>)
    ensures
        optional_text(text) == (match item {
            Some(i) => toml::text_of(toml::entry(toml::item_nodes(*i), field@)),
            None => None,
        }),
{
    match item {
        Some(i) => match item_child(i, field) {
            Some(child) => match item_text(child) {
                Some(t) => Some(t.to_string()),
                None => None,
            },
            None => None,
        },
        None => None,
    }
}

/// The entry under two keys, where there is one.
fn child2<'a>(item: &'a Item, key: &str, inner: &str) -> (child: Option<&'a Item>)
    ensures
        match child {
            Some(c) => toml::item_nodes(*c) == entry2(toml::item_nodes(*item), key@, inner@)
                && toml::has_entry(toml::entry(toml::item_nodes(*item), key@), inner@),
            None => entry2(toml::item_nodes(*item), key@, inner@) == Map::<
                Seq<Seq<char>>,
                TomlNode,
            >::empty(),
        },
{
    match item_child(item, key) {
        Some(outer) => item_child(outer, inner),
        None => {
            proof {
                toml::lemma_entry_of_nothing(inner@);
            }
            None
        },
    }
}

/// `[package].<field>` as an owned text.
pub fn package_str(document: &DocumentMut, field: &str) -> (text: Option<String>)
    ensures
        optional_text(text) == package_text(toml::document_nodes(*document), field@),
{
    proof {
        toml::lemma_entry_of_nothing(field@);
    }
    toml_item_str(item_child(document_root(document), "package"), field)
}

/// The `[workspace.package]` table.
fn workspace_package_table(document: &DocumentMut) -> (table: Option<&Item>)
    ensures
        match table {
            Some(t) => toml::item_nodes(*t) == workspace_package(toml::document_nodes(*document)),
            None => workspace_package(toml::document_nodes(*document)) == Map::<
                Seq<Seq<char>>,
                TomlNode,
            >::empty(),
        },
{
    child2(document_root(document), "workspace", "package")
}

/// `[workspace.package].<field>` as an owned text.
pub fn workspace_package_str(document: &DocumentMut, field: &str) -> (text: Option<String>)
    ensures
        optional_text(text) == workspace_package_text(toml::document_nodes(*document), field@),
{
    proof {
        toml::lemma_entry_of_nothing(field@);
    }
    toml_item_str(workspace_package_table(document), field)
}

/// Whether a `publish` value allows publishing.
fn publish_item_publishable(publish: &Item) -> (publishable: bool)
    ensures
        publishable == allows_publishing(toml::item_nodes(*publish)),
{
    match item_flag(publish) {
        Some(false) => {
            return false;
        },
        _ => {},
    }
    match item_list_length(publish) {
        Some(length) => length != 0,
        None => true,
    }
}

/// Whether a value is inherited from the workspace.
pub fn is_workspace_marker(item: &Item) -> (inherited: bool)
    ensures
        inherited == is_inherited(toml::item_nodes(*item)),
{
    match item_child(item, "workspace") {
        Some(marker) => match item_flag(marker) {
            Some(flag) => flag,
            None => false,
        },
        None => false,
    }
}

/// How a manifest says whether its package is publishable by default.
#[derive(Clone, Copy, Debug, PartialEq, Eq, Structural)]
pub enum PublishDefault {
    /// The manifest answers on its own.
    Standalone(bool),
    /// The workspace root's `[workspace.package].publish` answers.
    InheritWorkspace,
}

impl PublishDefault {
    /// The answer, given that of the workspace root.
    pub open spec fn resolved(self, workspace_answer: Option<bool>) -> bool {
        match self {
            PublishDefault::Standalone(publishable) => publishable,
            PublishDefault::InheritWorkspace => workspace_answer != Some(false),
        }
    }

    /// The answer. Where it is inherited and there is no workspace root, the
    /// package is publishable.
    pub fn resolve(self, workspace_answer: Option<bool>) -> (publishable: bool)
        ensures
            publishable == self.resolved(workspace_answer),
    {
        match self {
            PublishDefault::Standalone(publishable) => publishable,
            PublishDefault::InheritWorkspace => match workspace_answer {
                Some(answer) => answer,
                None => true,
            },
        }
    }
}

/// How `[package].publish` answers.
pub open spec fn publish_default(nodes: Map<Seq<Seq<char>>, TomlNode>) -> PublishDefault {
    let publish = entry2(nodes, "package"@, "publish"@);
    if !publish.contains_key(Seq::empty()) {
        PublishDefault::Standalone(true)
    } else if is_inherited(publish) {
        PublishDefault::InheritWorkspace
    } else {
        PublishDefault::Standalone(allows_publishing(publish))
    }
}

/// How `[package].publish` answers.
pub fn package_publish_default(document: &DocumentMut) -> (answer: PublishDefault)
    ensures
        answer == publish_default(toml::document_nodes(*document)),
{
    match child2(document_root(document), "package", "publish") {
        Some(publish) => if is_workspace_marker(publish) {
            PublishDefault::InheritWorkspace
        } else {
            PublishDefault::Standalone(publish_item_publishable(publish))
        },
        None => PublishDefault::Standalone(true),
    }
}

/// Whether members that inherit `publish` are publishable.
pub fn workspace_package_publishable_by_default(document: &DocumentMut) -> (publishable: bool)
    ensures
        publishable == workspace_allows_publishing(toml::document_nodes(*document)),
{
    proof {
        toml::lemma_entry_of_nothing("publish"@);
    }
    match workspace_package_table(document) {
        Some(table) => match item_child(table, "publish") {
            Some(publish) => publish_item_publishable(publish),
            None => true,
        },
        None => true,
    }
}

/// Whether a dependency has a local path.
fn is_local_path_dep(dependency: &Item) -> (local: bool)
    ensures
        local == has_local_path(toml::item_nodes(*dependency)),
{
    match item_child(dependency, "path") {
        Some(_) => true,
        None => false,
    }
}

/// Whether a dependency has a version requirement.
fn is_version_bearing_dep(dependency: &Item) -> (versioned: bool)
    ensures
        versioned == bears_version(toml::item_nodes(*dependency)),
{
    match item_text(dependency) {
        Some(_) => {
            return true;
        },
        None => {},
    }
    match item_child(dependency, "version") {
        Some(version) => match item_text(version) {
            Some(_) => true,
            None => false,
        },
        None => false,
    }
}

/// The package that a dependency names.
pub fn effective_dependency_name(key: &str, dependency: &Item) -> (name: String)
    ensures
        name@ == dependency_name(key@, toml::item_nodes(*dependency)),
{
    match toml_item_str(Some(dependency), "package") {
        Some(name) => name,
        None => key.to_string(),
    }
}

/// What packaging keeps of a dependency table.
#[derive(Clone, Copy, Debug, PartialEq, Eq, Structural)]
pub enum DependencyTableKind {
    /// Every entry.
    Published,
    /// The entries with a version requirement.
    Dev,
}

/// The dependency tables of a manifest, by their position.
pub open spec fn dependency_table(t: int) -> (Seq<char>, DependencyTableKind) {
    if t == 0 {
        ("dependencies"@, DependencyTableKind::Published)
    } else if t == 1 {
        ("dev-dependencies"@, DependencyTableKind::Dev)
    } else {
        ("build-dependencies"@, DependencyTableKind::Published)
    }
}

/// The dependency tables of a manifest, by their position.
pub fn cargo_dependency_table(t: usize) -> (table: (&'static str, DependencyTableKind))
    ensures
        (table.0@, table.1) == dependency_table(t as int),
{
    if t == 0 {
        ("dependencies", DependencyTableKind::Published)
    } else if t == 1 {
        ("dev-dependencies", DependencyTableKind::Dev)
    } else {
        ("build-dependencies", DependencyTableKind::Published)
    }
}

/// A dependency that has to be released before the package that declares it:
/// an inherited or local one that packaging keeps. Whether an inherited entry
/// has a version requirement is for the workspace root to say.
pub open spec fn is_release_edge(
    key: Seq<char>,
    dependency: Map<Seq<Seq<char>>, TomlNode>,
    kind: DependencyTableKind,
    workspace_versioned: Set<Seq<char>>,
) -> bool {
    if is_inherited(dependency) {
        kind == DependencyTableKind::Published || workspace_versioned.contains(key)
    } else {
        has_local_path(dependency) && (kind == DependencyTableKind::Published || bears_version(
            dependency,
        ))
    }
}

/// The key of a table holds a release edge to the package.
pub open spec fn is_edge_to(
    table: Map<Seq<Seq<char>>, TomlNode>,
    kind: DependencyTableKind,
    workspace_versioned: Set<Seq<char>>,
    key: Seq<char>,
    name: Seq<char>,
) -> bool {
    &&& toml::has_entry(table, key)
    &&& is_release_edge(key, toml::entry(table, key), kind, workspace_versioned)
    &&& dependency_name(key, toml::entry(table, key)) == name
}

/// The packages that the release edges of one table name.
pub open spec fn table_edges(
    table: Map<Seq<Seq<char>>, TomlNode>,
    kind: DependencyTableKind,
    workspace_versioned: Set<Seq<char>>,
) -> Set<Seq<char>> {
    Set::new(
        |name: Seq<char>|
            toml::is_table_like(table) && exists|key: Seq<char>| #[trigger]
                is_edge_to(table, kind, workspace_versioned, key, name),
    )
}

/// The packages that the release edges of the three tables name.
pub open spec fn tables_edges(
    nodes: Map<Seq<Seq<char>>, TomlNode>,
    workspace_versioned: Set<Seq<char>>,
    tables: nat,
) -> Set<Seq<char>>
    decreases tables,
{
    if tables == 0 {
        Set::empty()
    } else {
        let t = (tables - 1) as nat;
        tables_edges(nodes, workspace_versioned, t).union(
            table_edges(
                toml::entry(nodes, dependency_table(t as int).0),
                dependency_table(t as int).1,
                workspace_versioned,
            ),
        )
    }
}

/// The packages that a manifest has release edges to, in its dependency tables
/// and in those of its targets.
pub open spec fn release_edges(
    nodes: Map<Seq<Seq<char>>, TomlNode>,
    workspace_versioned: Set<Seq<char>>,
) -> Set<Seq<char>> {
    tables_edges(nodes, workspace_versioned, 3).union(
        target_edges(toml::entry(nodes, "target"@), workspace_versioned),
    )
}

/// The packages that the targets have release edges to.
pub open spec fn target_edges(
    targets: Map<Seq<Seq<char>>, TomlNode>,
    workspace_versioned: Set<Seq<char>>,
) -> Set<Seq<char>> {
    Set::new(
        |name: Seq<char>|
            toml::is_table_like(targets) && exists|target: Seq<char>| #[trigger]
                toml::has_entry(targets, target) && toml::is_table_like(
                    toml::entry(targets, target),
                ) && tables_edges(
                    toml::entry(targets, target),
                    workspace_versioned,
                    3,
                ).contains(name),
    )
}

/// Adds the packages that the release edges of one table name.
fn collect_workspace_dep_names_from_table(
    table: &Item,
    kind: DependencyTableKind,
    workspace_versioned: Option<&Vec<String>>,
    names: &mut Vec<String>,
)
    requires
        toml::is_table_like(toml::item_nodes(*table)),
        text_set::all_different(old(names)@),
    ensures
        text_set::all_different(final(names)@),
        text_set::text_set(final(names)@) == text_set::text_set(old(names)@).union(
            table_edges(toml::item_nodes(*table), kind, versioned_set(workspace_versioned)),
        ),
{
    let ghost nodes = toml::item_nodes(*table);
    let ghost versioned = versioned_set(workspace_versioned);
    let ghost before = text_set::text_set(names@);
    let keys: Vec<String> = item_keys(table);
    let mut i: usize = 0;
    while i < keys.len()
        invariant
            i <= keys@.len(),
            nodes == toml::item_nodes(*table),
            versioned == versioned_set(workspace_versioned),
            text_set::all_different(names@),
            forall|name: Seq<char>| #[trigger]
                text_set::text_set(names@).contains(name) <==> before.contains(name) || exists|
                    k: int,
                | 0 <= k < i && is_edge_to(nodes, kind, versioned, (#[trigger] keys@[k])@, name),
        decreases keys@.len() - i,
    {
        let ghost earlier = text_set::text_set(names@);
        let key: &str = keys[i].as_str();
        let ghost mut edge = false;
        let ghost mut target: Seq<char> = Seq::empty();
        match item_child(table, key) {
            Some(dependency) => {
                let is_edge: bool = if is_workspace_marker(dependency) {
                    kind == DependencyTableKind::Published || match workspace_versioned {
                        Some(list) => holds_text(list, key),
                        None => false,
                    }
                } else if is_local_path_dep(dependency) {
                    kind == DependencyTableKind::Published || is_version_bearing_dep(dependency)
                } else {
                    false
                };
                if is_edge {
                    let name: String = effective_dependency_name(key, dependency);
                    insert_text(names, name.as_str());
                    proof {
                        assert(is_edge_to(nodes, kind, versioned, keys@[i as int]@, name@));
                        edge = true;
                        target = name@;
                    }
                }
            },
            None => {},
        }
        proof {
            assert forall|name: Seq<char>| #[trigger]
                text_set::text_set(names@).contains(name) <==> before.contains(name) || exists|
                    k: int,
                |
                    0 <= k < i + 1 && is_edge_to(
                        nodes,
                        kind,
                        versioned,
                        (#[trigger] keys@[k])@,
                        name,
                    ) by {
                assert(is_edge_to(nodes, kind, versioned, keys@[i as int]@, name) <==> edge && name
                    == target);
                assert(text_set::text_set(names@).contains(name) <==> earlier.contains(name) || (
                edge && name == target));
            }
        }
        i = i + 1;
    }
    proof {
        let after = before.union(table_edges(nodes, kind, versioned));
        assert forall|name: Seq<char>| text_set::text_set(names@).contains(name)
            == after.contains(name) by {
            if text_set::text_set(names@).contains(name) && !before.contains(name) {
                let k = choose|k: int|
                    0 <= k < i && is_edge_to(nodes, kind, versioned, (#[trigger] keys@[k])@, name);
                assert(is_edge_to(nodes, kind, versioned, keys@[k]@, name));
            }
            if table_edges(nodes, kind, versioned).contains(name) {
                let key = choose|key: Seq<char>| #[trigger]
                    is_edge_to(nodes, kind, versioned, key, name);
                assert(toml::has_entry(nodes, key));
                let k = choose|k: int| 0 <= k < keys@.len() && (#[trigger] keys@[k])@ == key;
                assert(is_edge_to(nodes, kind, versioned, keys@[k]@, name));
            }
        }
        assert(text_set::text_set(names@) =~= after);
    }
}

/// The keys with a version requirement at the workspace root.
pub open spec fn versioned_set(workspace_versioned: Option<&Vec<String>>) -> Set<Seq<char>> {
    match workspace_versioned {
        Some(list) => text_set::text_set(list@),
        None => Set::empty(),
    }
}

/// Adds the packages that the release edges of the three tables of an item
/// name.
fn collect_workspace_dep_names_from_tables(
    item: &Item,
    workspace_versioned: Option<&Vec<String>>,
    names: &mut Vec<String>,
)
    requires
        text_set::all_different(old(names)@),
    ensures
        text_set::all_different(final(names)@),
        text_set::text_set(final(names)@) == text_set::text_set(old(names)@).union(
            tables_edges(toml::item_nodes(*item), versioned_set(workspace_versioned), 3),
        ),
{
    let ghost nodes = toml::item_nodes(*item);
    let ghost versioned = versioned_set(workspace_versioned);
    let ghost before = text_set::text_set(names@);
    proof {
        assert(before =~= before.union(tables_edges(nodes, versioned, 0)));
    }
    let mut t: usize = 0;
    while t < 3
        invariant
            t <= 3,
            nodes == toml::item_nodes(*item),
            versioned == versioned_set(workspace_versioned),
            text_set::all_different(names@),
            text_set::text_set(names@) == before.union(tables_edges(nodes, versioned, t as nat)),
        decreases 3 - t,
    {
        let (table_name, kind) = cargo_dependency_table(t);
        let ghost own = table_edges(toml::entry(nodes, table_name@), kind, versioned);
        proof {
            assert(tables_edges(nodes, versioned, (t + 1) as nat) == tables_edges(
                nodes,
                versioned,
                t as nat,
            ).union(own));
        }
        match item_child(item, table_name) {
            Some(table) => if item_is_table_like(table) {
                collect_workspace_dep_names_from_table(table, kind, workspace_versioned, names);
            } else {
                proof {
                    assert(own =~= Set::empty());
                }
            },
            None => {
                proof {
                    assert(own =~= Set::empty());
                }
            },
        }
        proof {
            assert(text_set::text_set(names@) =~= before.union(
                tables_edges(nodes, versioned, (t + 1) as nat),
            ));
        }
        t = t + 1;
    }
}

/// The packages that a manifest has release edges to, each once.
pub fn workspace_dep_names(
    document: &DocumentMut,
    workspace_versioned: Option<&Vec<String>>,
) -> (names: Vec<String>)
    ensures
        text_set::all_different(names@),
        text_set::text_set(names@) == release_edges(
            toml::document_nodes(*document),
            versioned_set(workspace_versioned),
        ),
{
    let ghost nodes = toml::document_nodes(*document);
    let ghost versioned = versioned_set(workspace_versioned);
    let mut names: Vec<String> = Vec::new();
    let root: &Item = document_root(document);
    proof {
        assert(text_set::text_set(names@) =~= Set::empty());
    }
    collect_workspace_dep_names_from_tables(root, workspace_versioned, &mut names);
    let ghost own = text_set::text_set(names@);
    proof {
        assert(own =~= tables_edges(nodes, versioned, 3));
    }
    match item_child(root, "target") {
        Some(targets) => if item_is_table_like(targets) {
            collect_target_dep_names(targets, workspace_versioned, &mut names);
        } else {
            proof {
                assert(target_edges(toml::entry(nodes, "target"@), versioned) =~= Set::empty());
            }
        },
        None => {
            proof {
                assert(target_edges(toml::entry(nodes, "target"@), versioned) =~= Set::empty());
            }
        },
    }
    proof {
        assert(text_set::text_set(names@) =~= release_edges(nodes, versioned));
    }
    names
}

/// The target has a release edge to the package.
spec fn is_target_edge(
    targets: Map<Seq<Seq<char>>, TomlNode>,
    workspace_versioned: Set<Seq<char>>,
    target: Seq<char>,
    name: Seq<char>,
) -> bool {
    toml::has_entry(targets, target) && toml::is_table_like(toml::entry(targets, target))
        && tables_edges(toml::entry(targets, target), workspace_versioned, 3).contains(name)
}

/// Adds the packages that the targets have release edges to.
fn collect_target_dep_names(
    targets: &Item,
    workspace_versioned: Option<&Vec<String>>,
    names: &mut Vec<String>,
)
    requires
        toml::is_table_like(toml::item_nodes(*targets)),
        text_set::all_different(old(names)@),
    ensures
        text_set::all_different(final(names)@),
        text_set::text_set(final(names)@) == text_set::text_set(old(names)@).union(
            target_edges(toml::item_nodes(*targets), versioned_set(workspace_versioned)),
        ),
{
    let ghost nodes = toml::item_nodes(*targets);
    let ghost versioned = versioned_set(workspace_versioned);
    let ghost before = text_set::text_set(names@);
    let keys: Vec<String> = item_keys(targets);
    let mut i: usize = 0;
    while i < keys.len()
        invariant
            i <= keys@.len(),
            nodes == toml::item_nodes(*targets),
            versioned == versioned_set(workspace_versioned),
            text_set::all_different(names@),
            forall|name: Seq<char>| #[trigger]
                text_set::text_set(names@).contains(name) <==> before.contains(name) || exists|
                    k: int,
                | 0 <= k < i && is_target_edge(nodes, versioned, (#[trigger] keys@[k])@, name),
        decreases keys@.len() - i,
    {
        let ghost earlier = text_set::text_set(names@);
        let key: &str = keys[i].as_str();
        match item_child(targets, key) {
            Some(target) => if item_is_table_like(target) {
                collect_workspace_dep_names_from_tables(target, workspace_versioned, names);
            },
            None => {},
        }
        proof {
            assert forall|name: Seq<char>| #[trigger]
                text_set::text_set(names@).contains(name) <==> before.contains(name) || exists|
                    k: int,
                |
                    0 <= k < i + 1 && is_target_edge(
                        nodes,
                        versioned,
                        (#[trigger] keys@[k])@,
                        name,
                    ) by {
                assert(text_set::text_set(names@).contains(name) <==> earlier.contains(name)
                    || is_target_edge(nodes, versioned, keys@[i as int]@, name));
            }
        }
        i = i + 1;
    }
    proof {
        let after = before.union(target_edges(nodes, versioned));
        assert forall|name: Seq<char>| text_set::text_set(names@).contains(name)
            == after.contains(name) by {
            if text_set::text_set(names@).contains(name) && !before.contains(name) {
                let k = choose|k: int|
                    0 <= k < i && is_target_edge(nodes, versioned, (#[trigger] keys@[k])@, name);
                assert(toml::has_entry(nodes, keys@[k]@));
            }
            if target_edges(nodes, versioned).contains(name) {
                let target = choose|target: Seq<char>| #[trigger]
                    toml::has_entry(nodes, target) && toml::is_table_like(
                        toml::entry(nodes, target),
                    ) && tables_edges(toml::entry(nodes, target), versioned, 3).contains(name);
                let k = choose|k: int| 0 <= k < keys@.len() && (#[trigger] keys@[k])@ == target;
                assert(is_target_edge(nodes, versioned, keys@[k]@, name));
            }
        }
        assert(text_set::text_set(names@) =~= after);
    }
}

/// The entry under the key stands for a local package of another name.
pub open spec fn is_alias(table: Map<Seq<Seq<char>>, TomlNode>, key: Seq<char>) -> bool {
    &&& toml::has_entry(table, key)
    &&& has_local_path(toml::entry(table, key))
    &&& dependency_name(key, toml::entry(table, key)) != key
}

/// The aliases in `[workspace.dependencies]`: keys of local packages of
/// another name, with that name.
pub open spec fn workspace_aliases(
    nodes: Map<Seq<Seq<char>>, TomlNode>,
) -> Map<Seq<char>, Seq<char>> {
    let table = workspace_dependencies(nodes);
    Map::new(
        |key: Seq<char>| toml::is_table_like(table) && is_alias(table, key),
        |key: Seq<char>| dependency_name(key, toml::entry(table, key)),
    )
}

/// The keys of `[workspace.dependencies]` with a version requirement.
pub open spec fn workspace_versioned(nodes: Map<Seq<Seq<char>>, TomlNode>) -> Set<Seq<char>> {
    let table = workspace_dependencies(nodes);
    Set::new(
        |key: Seq<char>|
            toml::is_table_like(table) && toml::has_entry(table, key) && bears_version(
                toml::entry(table, key),
            ),
    )
}

/// The aliases in `[workspace.dependencies]`.
pub fn workspace_dependency_aliases(document: &DocumentMut) -> (aliases: TextMap)
    ensures
        aliases.well_formed(),
        aliases@ == workspace_aliases(toml::document_nodes(*document)),
{
    let ghost nodes = workspace_dependencies(toml::document_nodes(*document));
    let ghost all = workspace_aliases(toml::document_nodes(*document));
    let mut aliases: TextMap = TextMap::new();
    match child2(document_root(document), "workspace", "dependencies") {
        Some(table) => if item_is_table_like(table) {
            let keys: Vec<String> = item_keys(table);
            let mut i: usize = 0;
            while i < keys.len()
                invariant
                    i <= keys@.len(),
                    nodes == toml::item_nodes(*table),
                    aliases.well_formed(),
                    forall|key: Seq<char>| #[trigger]
                        aliases@.contains_key(key) <==> is_alias(nodes, key) && exists|k: int|
                            0 <= k < i && (#[trigger] keys@[k])@ == key,
                    forall|key: Seq<char>| #[trigger]
                        aliases@.contains_key(key) ==> aliases@[key] == dependency_name(
                            key,
                            toml::entry(nodes, key),
                        ),
                decreases keys@.len() - i,
            {
                let ghost earlier = aliases@;
                let key: &str = keys[i].as_str();
                match item_child(table, key) {
                    Some(dependency) => if is_local_path_dep(dependency) {
                        let name: String = effective_dependency_name(key, dependency);
                        if !same_text(name.as_str(), key) {
                            aliases.insert(key.to_string(), name);
                        }
                    },
                    None => {},
                }
                proof {
                    assert forall|k2: Seq<char>| #[trigger]
                        aliases@.contains_key(k2) <==> is_alias(nodes, k2) && exists|k: int|
                            0 <= k < i + 1 && (#[trigger] keys@[k])@ == k2 by {
                        assert(aliases@.contains_key(k2) <==> earlier.contains_key(k2) || (k2
                            == keys@[i as int]@ && is_alias(nodes, k2)));
                        if is_alias(nodes, k2) && exists|k: int|
                            0 <= k < i + 1 && (#[trigger] keys@[k])@ == k2 {
                            let k = choose|k: int| 0 <= k < i + 1 && (#[trigger] keys@[k])@ == k2;
                            if k < i {
                                assert(earlier.contains_key(k2));
                            }
                        }
                    }
                }
                i = i + 1;
            }
            proof {
                assert forall|key: Seq<char>| aliases@.contains_key(key) == all.contains_key(
                    key,
                ) by {
                    if is_alias(nodes, key) {
                        let k = choose|k: int| 0 <= k < keys@.len() && (#[trigger] keys@[k])@ == key;
                        assert(keys@[k]@ == key);
                    }
                }
                assert(aliases@ =~= all);
            }
        } else {
            proof {
                assert(aliases@ =~= all);
            }
        },
        None => {
            proof {
                assert(aliases@ =~= all);
            }
        },
    }
    aliases
}

/// The keys of `[workspace.dependencies]` with a version requirement.
pub fn workspace_versioned_dependencies(document: &DocumentMut) -> (versioned: Vec<String>)
    ensures
        text_set::all_different(versioned@),
        text_set::text_set(versioned@) == workspace_versioned(toml::document_nodes(*document)),
{
    let ghost nodes = workspace_dependencies(toml::document_nodes(*document));
    let ghost all = workspace_versioned(toml::document_nodes(*document));
    let mut versioned: Vec<String> = Vec::new();
    proof {
        assert(text_set::text_set(versioned@) =~= Set::empty());
    }
    match child2(document_root(document), "workspace", "dependencies") {
        Some(table) => if item_is_table_like(table) {
            let keys: Vec<String> = item_keys(table);
            let mut i: usize = 0;
            while i < keys.len()
                invariant
                    i <= keys@.len(),
                    nodes == toml::item_nodes(*table),
                    text_set::all_different(versioned@),
                    forall|key: Seq<char>| #[trigger]
                        text_set::text_set(versioned@).contains(key) <==> toml::has_entry(
                            nodes,
                            key,
                        ) && bears_version(toml::entry(nodes, key)) && exists|k: int|
                            0 <= k < i && (#[trigger] keys@[k])@ == key,
                decreases keys@.len() - i,
            {
                let ghost earlier = text_set::text_set(versioned@);
                let key: &str = keys[i].as_str();
                match item_child(table, key) {
                    Some(dependency) => if is_version_bearing_dep(dependency) {
                        insert_text(&mut versioned, key);
                    },
                    None => {},
                }
                proof {
                    assert forall|k2: Seq<char>| #[trigger]
                        text_set::text_set(versioned@).contains(k2) <==> toml::has_entry(
                            nodes,
                            k2,
                        ) && bears_version(toml::entry(nodes, k2)) && exists|k: int|
                            0 <= k < i + 1 && (#[trigger] keys@[k])@ == k2 by {
                        assert(text_set::text_set(versioned@).contains(k2) <==> earlier.contains(k2)
                            || (k2 == keys@[i as int]@ && toml::has_entry(nodes, k2)
                            && bears_version(toml::entry(nodes, k2))));
                        if exists|k: int| 0 <= k < i + 1 && (#[trigger] keys@[k])@ == k2 {
                            let k = choose|k: int| 0 <= k < i + 1 && (#[trigger] keys@[k])@ == k2;
                            if k < i {
                                assert(keys@[k]@ == k2);
                            }
                        }
                    }
                }
                i = i + 1;
            }
            proof {
                assert forall|key: Seq<char>| text_set::text_set(versioned@).contains(key)
                    == all.contains(key) by {
                    if toml::has_entry(nodes, key) {
                        let k = choose|k: int| 0 <= k < keys@.len() && (#[trigger] keys@[k])@ == key;
                        assert(keys@[k]@ == key);
                    }
                }
                assert(text_set::text_set(versioned@) =~= all);
            }
        } else {
            proof {
                assert(text_set::text_set(versioned@) =~= all);
            }
        },
        None => {
            proof {
                assert(text_set::text_set(versioned@) =~= all);
            }
        },
    }
    versioned
}

} // verus!
