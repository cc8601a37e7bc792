//! What an update of a `Cargo.toml` leaves as it is, and as it is written.

use crate::assign_preserving_decor;
use crate::dependency_pins;
use crate::dependency_pins::PinRuleView;
use crate::manifest;
use crate::manifest_update;
use crate::toml;
use crate::toml::{TableLayout, TomlNode};
use crate::workspace::MembersView;
use vstd::prelude::*;

verus! {

/// The path leads to a string under the key `version`, or through it.
pub open spec fn is_at_version(
    nodes: Map<Seq<Seq<char>>, TomlNode>,
    path: Seq<Seq<char>>,
) -> bool {
    exists|n: int|
        0 < n <= path.len() && path[n - 1] == "version"@ && is_text_at(nodes, #[trigger] path.take(n))
}

/// A string stands at the path.
pub open spec fn is_text_at(nodes: Map<Seq<Seq<char>>, TomlNode>, path: Seq<Seq<char>>) -> bool {
    nodes.contains_key(path) && nodes[path].kind is Text
}

/// What stands there is as it was, and written as it was, but for new keys
/// behind those that a table had.
pub open spec fn keeps_node(before: TomlNode, after: TomlNode) -> bool {
    ||| after == before
    ||| before.layout is Some && after.layout is Some && before.layout->0.keys.is_prefix_of(
        after.layout->0.keys,
    ) && after == (TomlNode {
        layout: Some(TableLayout { keys: after.layout->0.keys, ..before.layout->0 }),
        ..before
    })
}

/// Everything that stood before stands afterwards as it did, and as it was
/// written: keys, comments and whitespace, the order of keys and tables. Only
/// where a string stands under a key `version` afterwards, something else may
/// have stood before.
pub open spec fn keeps_the_rest(
    before: Map<Seq<Seq<char>>, TomlNode>,
    after: Map<Seq<Seq<char>>, TomlNode>,
) -> bool {
    forall|path: Seq<Seq<char>>| #[trigger]
        before.contains_key(path) ==> is_at_version(after, path) || (after.contains_key(path)
            && keeps_node(before[path], after[path]))
}

proof fn lemma_kept_twice(
    before: Map<Seq<Seq<char>>, TomlNode>,
    between: Map<Seq<Seq<char>>, TomlNode>,
    after: Map<Seq<Seq<char>>, TomlNode>,
)
    requires
        keeps_the_rest(before, between),
        keeps_the_rest(between, after),
    ensures
        keeps_the_rest(before, after),
{
    assert forall|path: Seq<Seq<char>>| #[trigger] before.contains_key(path) implies is_at_version(
        after,
        path,
    ) || (after.contains_key(path) && keeps_node(before[path], after[path])) by {
        if is_at_version(between, path) {
            let n = choose|n: int|
                0 < n <= path.len() && path[n - 1] == "version"@ && is_text_at(
                    between,
                    #[trigger] path.take(n),
                );
            let version = path.take(n);
            assert(between.contains_key(version));
            if is_at_version(after, version) {
                let m = choose|m: int|
                    0 < m <= version.len() && version[m - 1] == "version"@ && is_text_at(
                        after,
                        #[trigger] version.take(m),
                    );
                assert(version.take(m) =~= path.take(m));
            } else {
                assert(is_text_at(after, path.take(n)));
            }
        } else {
            assert(between.contains_key(path));
        }
    }
}

proof fn lemma_kept_below(
    nodes: Map<Seq<Seq<char>>, TomlNode>,
    key: Seq<char>,
    child: Map<Seq<Seq<char>>, TomlNode>,
    changed: Map<Seq<Seq<char>>, TomlNode>,
    path: Seq<Seq<char>>,
)
    requires
        keeps_the_rest(toml::entry(nodes, key), child),
        forall|below: Seq<Seq<char>>|
            child.contains_key(below) ==> #[trigger] changed.contains_key(seq![key] + below)
                && changed[seq![key] + below] == child[below],
        nodes.contains_key(path),
        path.len() > 0,
        path[0] == key,
    ensures
        is_at_version(changed, path) || (changed.contains_key(path) && keeps_node(
            nodes[path],
            changed[path],
        )),
{
    let below = path.drop_first();
    assert(seq![key] + below =~= path);
    assert(toml::entry(nodes, key).contains_key(below));
    if is_at_version(child, below) {
        let n = choose|n: int|
            0 < n <= below.len() && below[n - 1] == "version"@ && is_text_at(
                child,
                #[trigger] below.take(n),
            );
        assert(seq![key] + below.take(n) =~= path.take(n + 1));
        assert(changed.contains_key(seq![key] + below.take(n)));
        assert(is_text_at(changed, path.take(n + 1)));
    } else {
        assert(changed.contains_key(seq![key] + below));
    }
}

proof fn lemma_entry_kept(
    nodes: Map<Seq<Seq<char>>, TomlNode>,
    key: Seq<char>,
    child: Map<Seq<Seq<char>>, TomlNode>,
)
    requires
        keeps_the_rest(toml::entry(nodes, key), child),
    ensures
        keeps_the_rest(nodes, toml::with_entry(nodes, key, child)),
{
    let changed = toml::with_entry(nodes, key, child);
    assert forall|below: Seq<Seq<char>>| child.contains_key(below) implies #[trigger]
    changed.contains_key(seq![key] + below) && changed[seq![key] + below] == child[below] by {
        assert((seq![key] + below).drop_first() =~= below);
    }
    assert forall|path: Seq<Seq<char>>| #[trigger] nodes.contains_key(path) implies is_at_version(
        changed,
        path,
    ) || (changed.contains_key(path) && keeps_node(nodes[path], changed[path])) by {
        if path.len() > 0 && path[0] == key {
            lemma_kept_below(nodes, key, child, changed, path);
        }
    }
}

proof fn lemma_each_entry_kept(
    nodes: Map<Seq<Seq<char>>, TomlNode>,
    change: spec_fn(Seq<char>, Map<Seq<Seq<char>>, TomlNode>) -> Map<Seq<Seq<char>>, TomlNode>,
)
    requires
        forall|key: Seq<char>|
            keeps_the_rest(
                toml::entry(nodes, key),
                #[trigger] change(key, toml::entry(nodes, key)),
            ),
    ensures
        keeps_the_rest(nodes, dependency_pins::with_each_entry(nodes, change)),
{
    let changed = dependency_pins::with_each_entry(nodes, change);
    assert forall|path: Seq<Seq<char>>| #[trigger] nodes.contains_key(path) implies is_at_version(
        changed,
        path,
    ) || (changed.contains_key(path) && keeps_node(nodes[path], changed[path])) by {
        if path.len() > 0 {
            let key = path[0];
            let child = change(key, toml::entry(nodes, key));
            assert forall|below: Seq<Seq<char>>| child.contains_key(below) implies #[trigger]
            changed.contains_key(seq![key] + below) && changed[seq![key] + below] == child[below] by {
                assert((seq![key] + below).drop_first() =~= below);
                assert((seq![key] + below)[0] == key);
            }
            lemma_kept_below(nodes, key, child, changed, path);
        }
    }
}

proof fn lemma_version_set(table: Map<Seq<Seq<char>>, TomlNode>, version: Seq<char>)
    ensures
        keeps_the_rest(table, manifest_update::with_text(table, "version"@, version)),
{
    let changed = manifest_update::with_text(table, "version"@, version);
    assert forall|path: Seq<Seq<char>>| #[trigger] table.contains_key(path) implies is_at_version(
        changed,
        path,
    ) || (changed.contains_key(path) && keeps_node(table[path], changed[path])) by {
        if path.len() > 0 && path[0] == "version"@ {
            assert(path.take(1).drop_first() =~= Seq::<Seq<char>>::empty());
            assert(is_text_at(changed, path.take(1)));
        }
    }
}

/// Setting the version in a table of a document keeps the rest of it.
pub proof fn table_version_keeps_the_rest(
    nodes: Map<Seq<Seq<char>>, TomlNode>,
    key: Seq<char>,
    version: Seq<char>,
)
    requires
        toml::is_rooted(nodes),
    ensures
        keeps_the_rest(nodes, manifest_update::with_table_version(nodes, key, version)),
{
    let table = toml::entry(nodes, key);
    if toml::has_entry(nodes, key) {
        lemma_version_set(table, version);
        lemma_entry_kept(nodes, key, manifest_update::with_text(table, "version"@, version));
    } else {
        toml::lemma_missing_entry(nodes, key);
        lemma_entry_kept(
            nodes,
            key,
            manifest_update::with_text(toml::empty_table_nodes(), "version"@, version),
        );
    }
}

proof fn lemma_pinned_table(table: Map<Seq<Seq<char>>, TomlNode>, rule: PinRuleView)
    ensures
        keeps_the_rest(table, dependency_pins::pinned_table(table, rule)),
{
    let change = |key: Seq<char>, dependency: Map<Seq<Seq<char>>, TomlNode>|
        dependency_pins::pinned_dependency(key, dependency, rule);
    assert forall|key: Seq<char>|
        keeps_the_rest(
            toml::entry(table, key),
            #[trigger] change(key, toml::entry(table, key)),
        ) by {
        let dependency = toml::entry(table, key);
        if dependency_pins::is_stale(key, dependency, rule) {
            lemma_version_set(
                dependency,
                crate::version::retargeted(
                    dependency_pins::local_requirement(dependency)->0,
                    rule.target(key, manifest::dependency_name(key, dependency))->0,
                ),
            );
        }
    }
    lemma_each_entry_kept(table, change);
}

proof fn lemma_pinned_tables(
    nodes: Map<Seq<Seq<char>>, TomlNode>,
    rule: PinRuleView,
    tables: nat,
)
    requires
        tables <= 3,
    ensures
        keeps_the_rest(nodes, dependency_pins::pinned_tables(nodes, rule, tables)),
    decreases tables,
{
    if tables > 0 {
        let earlier = dependency_pins::pinned_tables(nodes, rule, (tables - 1) as nat);
        let name = manifest::dependency_table(tables - 1).0;
        let table = toml::entry(nodes, name);
        lemma_pinned_tables(nodes, rule, (tables - 1) as nat);
        if toml::is_table_like(table) {
            dependency_pins::lemma_table_names();
            dependency_pins::lemma_pinned_tables_frame(nodes, rule, (tables - 1) as nat, name);
            lemma_pinned_table(table, rule);
            lemma_entry_kept(earlier, name, dependency_pins::pinned_table(table, rule));
            lemma_kept_twice(
                nodes,
                earlier,
                toml::with_entry(earlier, name, dependency_pins::pinned_table(table, rule)),
            );
        }
    }
}

/// Moving the requirements of `[workspace.dependencies]` keeps the rest of the
/// document.
pub proof fn moved_dependencies_keep_the_rest(
    nodes: Map<Seq<Seq<char>>, TomlNode>,
    rule: PinRuleView,
)
    ensures
        keeps_the_rest(nodes, manifest_update::with_moved_dependencies(nodes, rule)),
{
    let workspace = toml::entry(nodes, "workspace"@);
    let dependencies = toml::entry(workspace, "dependencies"@);
    let pinned = dependency_pins::pinned_table(dependencies, rule);
    if toml::is_table(dependencies) {
        lemma_pinned_table(dependencies, rule);
        lemma_entry_kept(workspace, "dependencies"@, pinned);
        lemma_entry_kept(
            nodes,
            "workspace"@,
            toml::with_entry(workspace, "dependencies"@, pinned),
        );
    }
}

/// Moving the requirements of a document keeps the rest of it.
pub proof fn moved_requirements_keep_the_rest(
    nodes: Map<Seq<Seq<char>>, TomlNode>,
    rule: PinRuleView,
)
    ensures
        keeps_the_rest(nodes, dependency_pins::pinned_document(nodes, rule)),
{
    let moved = dependency_pins::pinned_workspace(nodes, rule);
    let own = dependency_pins::pinned_tables(moved, rule, 3);
    let targets = toml::entry(nodes, "target"@);
    moved_dependencies_keep_the_rest(nodes, rule);
    lemma_pinned_tables(moved, rule, 3);
    lemma_kept_twice(nodes, moved, own);
    if toml::is_table_like(targets) {
        dependency_pins::lemma_table_names();
        dependency_pins::lemma_workspace_frame(nodes, rule, "target"@);
        dependency_pins::lemma_pinned_tables_frame(moved, rule, 3, "target"@);
        let change = |key: Seq<char>, target: Map<Seq<Seq<char>>, TomlNode>|
            dependency_pins::pinned_target(target, rule);
        assert forall|key: Seq<char>|
            keeps_the_rest(
                toml::entry(targets, key),
                #[trigger] change(key, toml::entry(targets, key)),
            ) by {
            lemma_pinned_tables(toml::entry(targets, key), rule, 3);
        }
        lemma_each_entry_kept(targets, change);
        lemma_entry_kept(own, "target"@, dependency_pins::pinned_targets(targets, rule));
        lemma_kept_twice(
            nodes,
            own,
            toml::with_entry(own, "target"@, dependency_pins::pinned_targets(targets, rule)),
        );
    }
}

proof fn lemma_workspace_version(nodes: Map<Seq<Seq<char>>, TomlNode>, new_version: Seq<char>)
    ensures
        keeps_the_rest(nodes, manifest_update::with_workspace_version(nodes, new_version)),
{
    let workspace = toml::entry(nodes, "workspace"@);
    let package = toml::entry(workspace, "package"@);
    let versioned = manifest_update::with_text(
        toml::table_base(package),
        "version"@,
        new_version,
    );
    lemma_version_set(package, new_version);
    lemma_entry_kept(workspace, "package"@, versioned);
    lemma_entry_kept(nodes, "workspace"@, toml::with_entry(workspace, "package"@, versioned));
}

proof fn lemma_root_package(
    package: Map<Seq<Seq<char>>, TomlNode>,
    name: Seq<char>,
    new_version: Seq<char>,
)
    requires
        toml::is_rooted(package),
    ensures
        keeps_the_rest(
            package,
            manifest_update::updated_root_package(package, name, new_version),
        ),
{
    manifest_update::lemma_update_keys();
    let versioned = if manifest::is_inherited(toml::entry(package, "version"@)) {
        package
    } else {
        manifest_update::with_text(package, "version"@, new_version)
    };
    lemma_version_set(package, new_version);
    toml::lemma_other_entry(
        package,
        "version"@,
        toml::text_nodes(
            new_version,
            assign_preserving_decor::kept_decor(toml::entry(package, "version"@)),
        ),
        "name"@,
    );
    assert(toml::entry(versioned, "name"@) == toml::entry(package, "name"@));
    if !toml::has_entry(versioned, "name"@) {
        toml::lemma_missing_entry(package, "name"@);
        let named = manifest_update::with_text(versioned, "name"@, name);
        lemma_entry_kept(
            versioned,
            "name"@,
            toml::text_nodes(
                name,
                assign_preserving_decor::kept_decor(toml::entry(versioned, "name"@)),
            ),
        );
        lemma_kept_twice(package, versioned, named);
    }
}

/// Setting the version of a workspace root, and of everything that follows it,
/// keeps the rest of its manifest.
pub proof fn workspace_update_keeps_the_rest(
    nodes: Map<Seq<Seq<char>>, TomlNode>,
    name: Seq<char>,
    old_version: Seq<char>,
    new_version: Seq<char>,
    members: MembersView,
)
    requires
        toml::is_rooted(nodes),
    ensures
        keeps_the_rest(
            nodes,
            manifest_update::updated_workspace(nodes, name, old_version, new_version, members),
        ),
{
    let root = manifest_update::with_root_version(nodes, name, new_version);
    let shared = manifest_update::with_existing_workspace_version(root, new_version);
    let rule = PinRuleView::Inherited { members, old_version, new_version };
    let package = toml::entry(nodes, "package"@);
    if toml::has_entry(nodes, "package"@) {
        toml::lemma_rooted_entry(nodes, "package"@);
        lemma_root_package(package, name, new_version);
        lemma_entry_kept(
            nodes,
            "package"@,
            manifest_update::updated_root_package(package, name, new_version),
        );
    } else if toml::has_entry(nodes, "workspace"@) {
        lemma_workspace_version(nodes, new_version);
    } else {
        toml::lemma_missing_entry(nodes, "package"@);
        lemma_entry_kept(nodes, "package"@, toml::entry(root, "package"@));
        toml::lemma_entry_set(
            nodes,
            "package"@,
            manifest_update::with_text(
                manifest_update::with_text(toml::empty_table_nodes(), "version"@, new_version),
                "name"@,
                name,
            ),
            Map::empty(),
        );
    }
    lemma_workspace_version(root, new_version);
    lemma_kept_twice(nodes, root, shared);
    moved_dependencies_keep_the_rest(shared, rule);
    lemma_kept_twice(
        nodes,
        shared,
        manifest_update::with_moved_dependencies(shared, rule),
    );
}

} // verus!
