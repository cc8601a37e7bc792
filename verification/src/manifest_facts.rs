//! What a manifest says of its project.

use crate::manifest;
use crate::manifest::DependencyTableKind;
use crate::toml;
use crate::toml::{TomlKind, TomlNode};
use vstd::prelude::*;
use vstd::string::*;

verus! {

/// What stands below a path of keys.
pub open spec fn nodes_below(
    nodes: Map<Seq<Seq<char>>, TomlNode>,
    prefix: Seq<Seq<char>>,
) -> Map<Seq<Seq<char>>, TomlNode> {
    Map::new(
        |path: Seq<Seq<char>>| nodes.contains_key(prefix + path),
        |path: Seq<Seq<char>>| nodes[prefix + path],
    )
}

pub proof fn lemma_below(
    nodes: Map<Seq<Seq<char>>, TomlNode>,
    prefix: Seq<Seq<char>>,
    key: Seq<char>,
)
    ensures
        toml::entry(nodes_below(nodes, prefix), key) == nodes_below(nodes, prefix.push(key)),
        nodes_below(nodes, Seq::empty()) == nodes,
        nodes_below(nodes, prefix).contains_key(Seq::empty()) == nodes.contains_key(prefix),
        nodes.contains_key(prefix) ==> nodes_below(nodes, prefix)[Seq::empty()] == nodes[prefix],
{
    let child = toml::entry(nodes_below(nodes, prefix), key);
    let wanted = nodes_below(nodes, prefix.push(key));
    assert forall|path: Seq<Seq<char>>|
        #![trigger child.contains_key(path)]
        child.contains_key(path) == wanted.contains_key(path) && (wanted.contains_key(path)
            ==> child[path] == wanted[path]) by {
        assert(prefix + (seq![key] + path) =~= prefix.push(key) + path);
    }
    assert(child =~= wanted);
    let same = nodes_below(nodes, Seq::empty());
    assert forall|path: Seq<Seq<char>>|
        #![trigger same.contains_key(path)]
        same.contains_key(path) == nodes.contains_key(path) && (nodes.contains_key(path)
            ==> same[path] == nodes[path]) by {
        assert(Seq::<Seq<char>>::empty() + path =~= path);
    }
    assert(same =~= nodes);
    assert(prefix + Seq::<Seq<char>>::empty() =~= prefix);
}

/// The entry under one key, and what stands there.
pub proof fn lemma_one_key(nodes: Map<Seq<Seq<char>>, TomlNode>, key: Seq<char>)
    ensures
        toml::entry(nodes, key) == nodes_below(nodes, seq![key]),
        toml::has_entry(nodes, key) == nodes.contains_key(seq![key]),
        nodes.contains_key(seq![key]) ==> toml::entry(nodes, key)[Seq::empty()] == nodes[seq![key]],
{
    lemma_below(nodes, Seq::empty(), key);
    assert(Seq::<Seq<char>>::empty().push(key) =~= seq![key]);
    lemma_below(nodes, seq![key], key);
}

/// The entry under two keys, and what stands there.
pub proof fn lemma_two_keys(nodes: Map<Seq<Seq<char>>, TomlNode>, a: Seq<char>, b: Seq<char>)
    ensures
        manifest::entry2(nodes, a, b) == nodes_below(nodes, seq![a, b]),
        toml::has_entry(toml::entry(nodes, a), b) == nodes.contains_key(seq![a, b]),
        nodes.contains_key(seq![a, b]) ==> manifest::entry2(nodes, a, b)[Seq::empty()]
            == nodes[seq![a, b]],
{
    lemma_one_key(nodes, a);
    lemma_below(nodes, seq![a], b);
    assert(seq![a].push(b) =~= seq![a, b]);
    lemma_below(nodes, seq![a, b], b);
}

/// The entry under a key of what stands below a path.
pub proof fn lemma_key_below(
    nodes: Map<Seq<Seq<char>>, TomlNode>,
    prefix: Seq<Seq<char>>,
    key: Seq<char>,
)
    ensures
        toml::entry(nodes_below(nodes, prefix), key) == nodes_below(nodes, prefix.push(key)),
        toml::has_entry(nodes_below(nodes, prefix), key) == nodes.contains_key(prefix.push(key)),
        nodes_below(nodes, prefix.push(key)).contains_key(Seq::empty()) == nodes.contains_key(
            prefix.push(key),
        ),
        nodes.contains_key(prefix.push(key)) ==> nodes_below(
            nodes,
            prefix.push(key),
        )[Seq::empty()] == nodes[prefix.push(key)],
{
    lemma_below(nodes, prefix, key);
    lemma_below(nodes, prefix.push(key), key);
}

/// The texts of a manifest: its name and version, and the version of its
/// workspace.
pub proof fn manifest_texts(nodes: Map<Seq<Seq<char>>, TomlNode>, field: Seq<char>)
    ensures
        manifest::package_text(nodes, field) == if nodes.contains_key(seq!["package"@, field])
            && nodes[seq!["package"@, field]].kind is Text {
            Some(nodes[seq!["package"@, field]].kind->Text_0)
        } else {
            None
        },
        manifest::workspace_package_text(nodes, field) == if nodes.contains_key(
            seq!["workspace"@, "package"@, field],
        ) && nodes[seq!["workspace"@, "package"@, field]].kind is Text {
            Some(nodes[seq!["workspace"@, "package"@, field]].kind->Text_0)
        } else {
            None
        },
{
    lemma_two_keys(nodes, "package"@, field);
    lemma_two_keys(nodes, "workspace"@, "package"@);
    lemma_key_below(nodes, seq!["workspace"@, "package"@], field);
    lemma_below(nodes, seq!["package"@, field], field);
    assert(seq!["workspace"@, "package"@].push(field) =~= seq!["workspace"@, "package"@, field]);
}

/// A package inherits its version exactly where `version.workspace` is true.
pub proof fn inherited_versions_are_marked(nodes: Map<Seq<Seq<char>>, TomlNode>)
    ensures
        manifest::is_inherited(manifest::entry2(nodes, "package"@, "version"@)) <==> {
            let marker = seq!["package"@, "version"@, "workspace"@];
            nodes.contains_key(marker) && nodes[marker].kind == TomlKind::Flag(true)
        },
{
    lemma_two_keys(nodes, "package"@, "version"@);
    lemma_key_below(nodes, seq!["package"@, "version"@], "workspace"@);
    assert(seq!["package"@, "version"@].push("workspace"@) =~= seq![
        "package"@,
        "version"@,
        "workspace"@,
    ]);
}

/// A package can be published unless `publish` is false or an empty list. Where
/// `publish.workspace` is true its workspace root decides in the same way, and it
/// can be published where there is none.
pub proof fn publishing_is_refused_by_false_and_by_an_empty_list(
    nodes: Map<Seq<Seq<char>>, TomlNode>,
    answer: Option<bool>,
)
    ensures
        ({
            let publish = seq!["package"@, "publish"@];
            let marker = seq!["package"@, "publish"@, "workspace"@];
            let inherited = nodes.contains_key(publish) && nodes.contains_key(marker)
                && nodes[marker].kind == TomlKind::Flag(true);
            &&& inherited ==> manifest::publish_default(nodes).resolved(answer) == (answer != Some(
                false,
            ))
            &&& !inherited ==> manifest::publish_default(nodes).resolved(answer) == !(
            nodes.contains_key(publish) && (nodes[publish].kind == TomlKind::Flag(false)
                || nodes[publish].kind == TomlKind::List(0)))
        }),
        ({
            let publish = seq!["workspace"@, "package"@, "publish"@];
            manifest::workspace_allows_publishing(nodes) == !(nodes.contains_key(publish) && (
            nodes[publish].kind == TomlKind::Flag(false) || nodes[publish].kind == TomlKind::List(
                0,
            )))
        }),
{
    lemma_two_keys(nodes, "package"@, "publish"@);
    lemma_key_below(nodes, seq!["package"@, "publish"@], "workspace"@);
    lemma_below(nodes, seq!["package"@, "publish"@], "workspace"@);
    assert(seq!["package"@, "publish"@].push("workspace"@) =~= seq![
        "package"@,
        "publish"@,
        "workspace"@,
    ]);
    lemma_two_keys(nodes, "workspace"@, "package"@);
    lemma_key_below(nodes, seq!["workspace"@, "package"@], "publish"@);
    assert(seq!["workspace"@, "package"@].push("publish"@) =~= seq![
        "workspace"@,
        "package"@,
        "publish"@,
    ]);
}

/// The place of a dependency, below a path, is that of a release edge.
proof fn lemma_edge_below(
    nodes: Map<Seq<Seq<char>>, TomlNode>,
    prefix: Seq<Seq<char>>,
    key: Seq<char>,
    kind: DependencyTableKind,
    versioned: Set<Seq<char>>,
    name: Seq<char>,
)
    ensures
        ({
            let at = prefix.push(key);
            let inherited = nodes.contains_key(at.push("workspace"@))
                && nodes[at.push("workspace"@)].kind == TomlKind::Flag(true);
            let required = (nodes.contains_key(at) && nodes[at].kind is Text) || (
            nodes.contains_key(at.push("version"@)) && nodes[at.push("version"@)].kind is Text);
            let own = if nodes.contains_key(at.push("package"@)) && nodes[at.push(
                "package"@,
            )].kind is Text {
                nodes[at.push("package"@)].kind->Text_0
            } else {
                key
            };
            manifest::is_edge_to(nodes_below(nodes, prefix), kind, versioned, key, name)
                == (nodes.contains_key(at) && (if inherited {
                kind == DependencyTableKind::Published || versioned.contains(key)
            } else {
                nodes.contains_key(at.push("path"@)) && (kind == DependencyTableKind::Published
                    || required)
            }) && own == name)
        }),
{
    let at = prefix.push(key);
    lemma_key_below(nodes, prefix, key);
    lemma_key_below(nodes, at, "workspace"@);
    lemma_key_below(nodes, at, "version"@);
    lemma_key_below(nodes, at, "package"@);
    lemma_key_below(nodes, at, "path"@);
}

/// The three tables below a path.
proof fn lemma_tables_below(
    nodes: Map<Seq<Seq<char>>, TomlNode>,
    prefix: Seq<Seq<char>>,
    versioned: Set<Seq<char>>,
    name: Seq<char>,
)
    ensures
        manifest::tables_edges(nodes_below(nodes, prefix), versioned, 3).contains(name)
            <==> exists|t: int, key: Seq<char>|
            0 <= t < 3 && nodes.contains_key(prefix.push(manifest::dependency_table(t).0)) && (
            nodes[prefix.push(manifest::dependency_table(t).0)].kind is Table || nodes[prefix.push(
                manifest::dependency_table(t).0,
            )].kind is InlineTable) && #[trigger] manifest::is_edge_to(
                nodes_below(nodes, prefix.push(manifest::dependency_table(t).0)),
                manifest::dependency_table(t).1,
                versioned,
                key,
                name,
            ),
{
    let below = nodes_below(nodes, prefix);
    reveal_with_fuel(manifest::tables_edges, 4);
    assert forall|t: int| 0 <= t < 3 implies #[trigger] toml::entry(
        below,
        manifest::dependency_table(t).0,
    ) == nodes_below(nodes, prefix.push(manifest::dependency_table(t).0)) && (toml::is_table_like(
        nodes_below(nodes, prefix.push(manifest::dependency_table(t).0)),
    ) <==> nodes.contains_key(prefix.push(manifest::dependency_table(t).0)) && (nodes[prefix.push(
        manifest::dependency_table(t).0,
    )].kind is Table || nodes[prefix.push(manifest::dependency_table(t).0)].kind
        is InlineTable)) by {
        lemma_key_below(nodes, prefix, manifest::dependency_table(t).0);
    }
    assert(toml::entry(below, manifest::dependency_table(0).0) == nodes_below(
        nodes,
        prefix.push(manifest::dependency_table(0).0),
    ));
    assert(toml::entry(below, manifest::dependency_table(1).0) == nodes_below(
        nodes,
        prefix.push(manifest::dependency_table(1).0),
    ));
    assert(toml::entry(below, manifest::dependency_table(2).0) == nodes_below(
        nodes,
        prefix.push(manifest::dependency_table(2).0),
    ));
}

/// What a manifest depends on for a release. A dependency counts where it stands
/// in `[dependencies]`, `[dev-dependencies]` or `[build-dependencies]`, of the
/// manifest or of one of its targets, and has a local path or is inherited from
/// the workspace; one of `[dev-dependencies]` counts only with a version
/// requirement, for which of an inherited one the workspace root is asked. It
/// counts under its `package`, or else under its key.
pub proof fn local_and_inherited_dependencies_count(
    nodes: Map<Seq<Seq<char>>, TomlNode>,
    versioned: Set<Seq<char>>,
    at: Seq<Seq<char>>,
)
    requires
        at.len() == 2 || (at.len() == 4 && at[0] == "target"@),
        at[at.len() - 2] == "dependencies"@ || at[at.len() - 2] == "dev-dependencies"@ || at[
        at.len() - 2] == "build-dependencies"@,
        forall|n: int|
            0 < n < at.len() ==> nodes.contains_key(#[trigger] at.take(n)) && (nodes[at.take(
                n,
            )].kind is Table || nodes[at.take(n)].kind is InlineTable),
        nodes.contains_key(at),
        ({
            let inherited = nodes.contains_key(at.push("workspace"@))
                && nodes[at.push("workspace"@)].kind == TomlKind::Flag(true);
            let required = nodes[at].kind is Text || (nodes.contains_key(at.push("version"@))
                && nodes[at.push("version"@)].kind is Text);
            if inherited {
                at[at.len() - 2] != "dev-dependencies"@ || versioned.contains(at.last())
            } else {
                nodes.contains_key(at.push("path"@)) && (at[at.len() - 2] != "dev-dependencies"@
                    || required)
            }
        }),
    ensures
        manifest::release_edges(nodes, versioned).contains(
            if nodes.contains_key(at.push("package"@)) && nodes[at.push("package"@)].kind is Text {
                nodes[at.push("package"@)].kind->Text_0
            } else {
                at.last()
            },
        ),
{
    let name = if nodes.contains_key(at.push("package"@)) && nodes[at.push(
        "package"@,
    )].kind is Text {
        nodes[at.push("package"@)].kind->Text_0
    } else {
        at.last()
    };
    let key = at.last();
    let t = at[at.len() - 2];
    let prefix = at.take(at.len() - 2);
    let index: int = if t == "dependencies"@ {
        0
    } else if t == "dev-dependencies"@ {
        1
    } else {
        2
    };
    lemma_table_kinds();
    assert(manifest::dependency_table(index).0 == t);
    assert(prefix.push(t) =~= at.take(at.len() - 1));
    assert(prefix.push(t).push(key) =~= at);
    assert(nodes.contains_key(at.take(at.len() - 1)));
    lemma_edge_below(
        nodes,
        prefix.push(t),
        key,
        manifest::dependency_table(index).1,
        versioned,
        name,
    );
    assert(manifest::is_edge_to(
        nodes_below(nodes, prefix.push(manifest::dependency_table(index).0)),
        manifest::dependency_table(index).1,
        versioned,
        key,
        name,
    ));
    lemma_tables_below(nodes, prefix, versioned, name);
    lemma_below(nodes, Seq::empty(), key);
    if at.len() == 2 {
        assert(prefix =~= Seq::empty());
    } else {
        let target = at[1];
        let targets = toml::entry(nodes, "target"@);
        assert(prefix =~= seq!["target"@, target]);
        assert(at.take(1) =~= seq!["target"@]);
        assert(at.take(2) =~= seq!["target"@, target]);
        assert(nodes.contains_key(at.take(1)) && nodes.contains_key(at.take(2)));
        lemma_one_key(nodes, "target"@);
        lemma_two_keys(nodes, "target"@, target);
        lemma_below(nodes, seq!["target"@], target);
        assert(toml::has_entry(targets, target));
        assert(manifest::target_edges(targets, versioned).contains(name));
    }
}

/// The dependency tables are told apart by their names.
proof fn lemma_table_kinds()
    ensures
        "dependencies"@ != "dev-dependencies"@,
        "build-dependencies"@ != "dev-dependencies"@,
        "dependencies"@ != "build-dependencies"@,
{
    reveal_strlit("dependencies");
    reveal_strlit("dev-dependencies");
    reveal_strlit("build-dependencies");
    assert("dependencies"@.len() != "dev-dependencies"@.len());
    assert("build-dependencies"@.len() != "dev-dependencies"@.len());
    assert("dependencies"@.len() != "build-dependencies"@.len());
}

/// Nothing else counts: for every name there is such a dependency.
pub proof fn only_local_and_inherited_dependencies_count(
    nodes: Map<Seq<Seq<char>>, TomlNode>,
    versioned: Set<Seq<char>>,
    name: Seq<char>,
) -> (at: Seq<Seq<char>>)
    requires
        manifest::release_edges(nodes, versioned).contains(name),
    ensures
        at.len() == 2 || (at.len() == 4 && at[0] == "target"@),
        at[at.len() - 2] == "dependencies"@ || at[at.len() - 2] == "dev-dependencies"@ || at[
        at.len() - 2] == "build-dependencies"@,
        nodes.contains_key(at),
        ({
            let inherited = nodes.contains_key(at.push("workspace"@))
                && nodes[at.push("workspace"@)].kind == TomlKind::Flag(true);
            let required = nodes[at].kind is Text || (nodes.contains_key(at.push("version"@))
                && nodes[at.push("version"@)].kind is Text);
            if inherited {
                at[at.len() - 2] != "dev-dependencies"@ || versioned.contains(at.last())
            } else {
                nodes.contains_key(at.push("path"@)) && (at[at.len() - 2] != "dev-dependencies"@
                    || required)
            }
        }),
        name == if nodes.contains_key(at.push("package"@)) && nodes[at.push("package"@)].kind
            is Text {
            nodes[at.push("package"@)].kind->Text_0
        } else {
            at.last()
        },
{
    lemma_table_kinds();
    lemma_below(nodes, Seq::empty(), name);
    lemma_tables_below(nodes, Seq::empty(), versioned, name);
    let targets = toml::entry(nodes, "target"@);
    let prefix = if manifest::tables_edges(nodes, versioned, 3).contains(name) {
        Seq::empty()
    } else {
        assert(manifest::target_edges(targets, versioned).contains(name));
        let target = choose|target: Seq<char>| #[trigger]
            toml::has_entry(targets, target) && toml::is_table_like(toml::entry(targets, target))
                && manifest::tables_edges(toml::entry(targets, target), versioned, 3).contains(
                name,
            );
        lemma_two_keys(nodes, "target"@, target);
        lemma_tables_below(nodes, seq!["target"@, target], versioned, name);
        seq!["target"@, target]
    };
    let (t, key) = choose|t: int, key: Seq<char>|
        0 <= t < 3 && nodes.contains_key(prefix.push(manifest::dependency_table(t).0)) && (
        nodes[prefix.push(manifest::dependency_table(t).0)].kind is Table || nodes[prefix.push(
            manifest::dependency_table(t).0,
        )].kind is InlineTable) && #[trigger] manifest::is_edge_to(
            nodes_below(nodes, prefix.push(manifest::dependency_table(t).0)),
            manifest::dependency_table(t).1,
            versioned,
            key,
            name,
        );
    let at = prefix.push(manifest::dependency_table(t).0).push(key);
    lemma_edge_below(
        nodes,
        prefix.push(manifest::dependency_table(t).0),
        key,
        manifest::dependency_table(t).1,
        versioned,
        name,
    );
    at
}

/// What a workspace root says of its dependencies. One with a local path under
/// another package's name stands for that package. One has a version where it
/// is a text, or has a text under `version`.
pub proof fn workspace_dependencies_name_local_packages(
    nodes: Map<Seq<Seq<char>>, TomlNode>,
    key: Seq<char>,
    name: Seq<char>,
)
    ensures
        ({
            let table = seq!["workspace"@, "dependencies"@];
            let at = table.push(key);
            let stands = nodes.contains_key(table) && (nodes[table].kind is Table
                || nodes[table].kind is InlineTable) && nodes.contains_key(at);
            let aliases = manifest::workspace_aliases(nodes);
            &&& (aliases.contains_key(key) && aliases[key] == name) == (stands
                && nodes.contains_key(at.push("path"@)) && name != key && nodes.contains_key(
                at.push("package"@),
            ) && nodes[at.push("package"@)].kind == TomlKind::Text(name))
            &&& manifest::workspace_versioned(nodes).contains(key) == (stands && (
            nodes[at].kind is Text || (nodes.contains_key(at.push("version"@)) && nodes[at.push(
                "version"@,
            )].kind is Text)))
        }),
{
    let table = seq!["workspace"@, "dependencies"@];
    let at = table.push(key);
    lemma_two_keys(nodes, "workspace"@, "dependencies"@);
    lemma_below(nodes, table, key);
    lemma_key_below(nodes, table, key);
    lemma_key_below(nodes, at, "version"@);
    lemma_key_below(nodes, at, "package"@);
    lemma_key_below(nodes, at, "path"@);
}

} // verus!
