//! Where new versions are written in a manifest.

use crate::manifest;
use crate::manifest_facts;
use crate::manifest_update;
use crate::toml;
use crate::toml::{TomlKind, TomlNode};
use crate::workspace::MembersView;
use vstd::prelude::*;
use vstd::string::*;

verus! {

/// A text under two keys is what stands there.
proof fn lemma_text_at(
    nodes: Map<Seq<Seq<char>>, TomlNode>,
    a: Seq<char>,
    b: Seq<char>,
    text: Seq<char>,
    decor: toml::DecorText,
    key: Seq<char>,
)
    requires
        manifest::entry2(nodes, a, b) == toml::text_nodes(text, decor),
    ensures
        nodes.contains_key(seq![a, b]),
        nodes[seq![a, b]].kind == TomlKind::Text(text),
        nodes[seq![a, b]].decor == Some(decor),
        !nodes.contains_key(seq![a, b].push(key)),
{
    manifest_facts::lemma_two_keys(nodes, a, b);
    manifest_facts::lemma_below(nodes, seq![a, b], b);
    manifest_facts::lemma_key_below(nodes, seq![a, b], key);
    let child = toml::entry(toml::text_nodes(text, decor), key);
    assert(seq![key] + Seq::<Seq<char>>::empty() =~= seq![key]);
    assert(seq![key].len() == 1);
    assert(!child.contains_key(Seq::empty()));
}

/// The version of a package is written under `package.version`, with what stood
/// around the old one.
pub proof fn package_versions_are_written(
    nodes: Map<Seq<Seq<char>>, TomlNode>,
    version: Seq<char>,
    key: Seq<char>,
)
    ensures
        ({
            let after = manifest_update::with_table_version(nodes, "package"@, version);
            let at = seq!["package"@, "version"@];
            &&& after.contains_key(at)
            &&& after[at].kind == TomlKind::Text(version)
            &&& nodes.contains_key(seq!["package"@]) && nodes.contains_key(at) && nodes[at].decor
                is Some ==> after[at].decor == nodes[at].decor
            &&& !after.contains_key(at.push(key))
        }),
{
    let after = manifest_update::with_table_version(nodes, "package"@, version);
    let table = if toml::has_entry(nodes, "package"@) {
        toml::entry(nodes, "package"@)
    } else {
        toml::empty_table_nodes()
    };
    let decor = crate::assign_preserving_decor::kept_decor(toml::entry(table, "version"@));
    let child = toml::text_nodes(version, decor);
    let written = manifest_update::with_text(table, "version"@, version);
    assert(manifest::entry2(after, "package"@, "version"@) == child) by {
        toml::lemma_entry_set(nodes, "package"@, written, written);
        toml::lemma_entry_set(table, "version"@, child, child);
    }
    lemma_text_at(after, "package"@, "version"@, version, decor, key);
    let at = seq!["package"@, "version"@];
    if nodes.contains_key(seq!["package"@]) && nodes.contains_key(at) && nodes[at].decor is Some {
        assert(decor == nodes[at].decor->0) by {
            manifest_facts::lemma_one_key(nodes, "package"@);
            manifest_facts::lemma_two_keys(nodes, "package"@, "version"@);
            manifest_facts::lemma_below(nodes, at, "version"@);
        }
    }
}

/// Writing the version of a package touches nothing outside of it, and nothing
/// in it but its version.
pub proof fn package_versions_touch_nothing_else(
    nodes: Map<Seq<Seq<char>>, TomlNode>,
    version: Seq<char>,
    path: Seq<Seq<char>>,
)
    requires
        nodes.contains_key(seq!["package"@]),
        nodes.contains_key(seq!["package"@, "version"@]),
        path.len() < 2 || path[0] != "package"@ || path[1] != "version"@,
    ensures
        ({
            let after = manifest_update::with_table_version(nodes, "package"@, version);
            &&& after.contains_key(path) == nodes.contains_key(path)
            &&& nodes.contains_key(path) ==> after[path] == nodes[path]
        }),
{
    manifest_facts::lemma_one_key(nodes, "package"@);
    manifest_facts::lemma_two_keys(nodes, "package"@, "version"@);
    if path.len() > 0 && path[0] == "package"@ {
        let rest = path.drop_first();
        assert(seq!["package"@] + rest =~= path);
        if rest.len() > 0 {
            assert(rest[0] == path[1]);
        }
    }
}

/// The package of a workspace root is written with the new version under
/// `package.version`, unless it inherits its version, which then stays.
pub proof fn root_packages_are_written(
    nodes: Map<Seq<Seq<char>>, TomlNode>,
    name: Seq<char>,
    old_version: Seq<char>,
    new_version: Seq<char>,
    members: MembersView,
)
    requires
        nodes.contains_key(seq!["package"@]),
    ensures
        ({
            let after = manifest_update::updated_workspace(
                nodes,
                name,
                old_version,
                new_version,
                members,
            );
            let at = seq!["package"@, "version"@];
            let marker = at.push("workspace"@);
            let inherited = nodes.contains_key(marker) && nodes[marker].kind == TomlKind::Flag(
                true,
            );
            &&& !inherited ==> after.contains_key(at) && after[at].kind == TomlKind::Text(
                new_version,
            ) && !after.contains_key(marker)
            &&& inherited ==> after.contains_key(at) == nodes.contains_key(at)
                && after.contains_key(marker) && after[marker] == nodes[marker]
            &&& inherited && nodes.contains_key(at) ==> after[at] == nodes[at]
        }),
{
    let after = manifest_update::updated_workspace(nodes, name, old_version, new_version, members);
    let at = seq!["package"@, "version"@];
    let marker = at.push("workspace"@);
    assert(marker =~= seq!["package"@, "version"@, "workspace"@]);
    manifest_facts::inherited_versions_are_marked(nodes);
    manifest_facts::lemma_one_key(nodes, "package"@);
    manifest_facts::lemma_two_keys(nodes, "package"@, "version"@);
    manifest_facts::lemma_two_keys(after, "package"@, "version"@);
    manifest_facts::lemma_key_below(nodes, at, "workspace"@);
    manifest_facts::lemma_key_below(after, at, "workspace"@);
    manifest_facts::lemma_below(nodes, at, "workspace"@);
    manifest_facts::lemma_below(after, at, "workspace"@);
    if manifest::is_inherited(manifest::entry2(nodes, "package"@, "version"@)) {
        manifest_update::inherited_root_version_is_kept(
            nodes,
            name,
            old_version,
            new_version,
            members,
        );
    } else {
        manifest_update::root_version_is_set(nodes, name, old_version, new_version, members);
        lemma_text_at(
            after,
            "package"@,
            "version"@,
            new_version,
            crate::assign_preserving_decor::kept_decor(
                manifest::entry2(nodes, "package"@, "version"@),
            ),
            "workspace"@,
        );
    }
}

/// A root package without a name gets the name of its project; one with a name
/// keeps it.
pub proof fn root_packages_have_names(
    nodes: Map<Seq<Seq<char>>, TomlNode>,
    name: Seq<char>,
    old_version: Seq<char>,
    new_version: Seq<char>,
    members: MembersView,
)
    requires
        nodes.contains_key(seq!["package"@]),
    ensures
        ({
            let after = manifest_update::updated_workspace(
                nodes,
                name,
                old_version,
                new_version,
                members,
            );
            let at = seq!["package"@, "name"@];
            &&& after.contains_key(at)
            &&& nodes.contains_key(at) ==> after[at] == nodes[at]
            &&& !nodes.contains_key(at) ==> after[at].kind == TomlKind::Text(name)
        }),
{
    let after = manifest_update::updated_workspace(nodes, name, old_version, new_version, members);
    let at = seq!["package"@, "name"@];
    manifest_facts::lemma_one_key(nodes, "package"@);
    manifest_facts::lemma_two_keys(nodes, "package"@, "name"@);
    manifest_facts::lemma_two_keys(after, "package"@, "name"@);
    manifest_facts::lemma_below(nodes, at, "name"@);
    manifest_facts::lemma_below(after, at, "name"@);
    if nodes.contains_key(at) {
        manifest_update::root_name_is_kept(nodes, name, old_version, new_version, members);
    } else {
        manifest_update::lemma_update_keys();
        manifest_update::lemma_updated_package(nodes, name, old_version, new_version, members);
        let package = toml::entry(nodes, "package"@);
        let updated = manifest_update::updated_root_package(package, name, new_version);
        let versioned = if manifest::is_inherited(toml::entry(package, "version"@)) {
            package
        } else {
            manifest_update::with_text(package, "version"@, new_version)
        };
        toml::lemma_other_entry(
            package,
            "version"@,
            toml::text_nodes(
                new_version,
                crate::assign_preserving_decor::kept_decor(toml::entry(package, "version"@)),
            ),
            "name"@,
        );
        assert(toml::entry(versioned, "name"@) == toml::entry(package, "name"@));
        manifest_facts::lemma_one_key(versioned, "name"@);
        manifest_facts::lemma_one_key(package, "name"@);
        assert(!toml::has_entry(versioned, "name"@)) by {
            manifest_facts::lemma_below(versioned, seq!["name"@], "name"@);
            manifest_facts::lemma_below(package, seq!["name"@], "name"@);
        }
        let decor = crate::assign_preserving_decor::kept_decor(toml::entry(versioned, "name"@));
        let child = toml::text_nodes(name, decor);
        toml::lemma_entry_set(versioned, "name"@, child, child);
        toml::lemma_entry_set(nodes, "package"@, updated, updated);
        lemma_text_at(after, "package"@, "name"@, name, decor, name);
    }
}

/// A manifest with neither a package nor a workspace gets a package with the
/// name and the version.
pub proof fn bare_manifests_get_a_package(
    nodes: Map<Seq<Seq<char>>, TomlNode>,
    name: Seq<char>,
    old_version: Seq<char>,
    new_version: Seq<char>,
    members: MembersView,
)
    requires
        !nodes.contains_key(seq!["package"@]),
        !nodes.contains_key(seq!["workspace"@]),
    ensures
        ({
            let after = manifest_update::updated_workspace(
                nodes,
                name,
                old_version,
                new_version,
                members,
            );
            &&& after.contains_key(seq!["package"@, "version"@])
            &&& after[seq!["package"@, "version"@]].kind == TomlKind::Text(new_version)
            &&& after.contains_key(seq!["package"@, "name"@])
            &&& after[seq!["package"@, "name"@]].kind == TomlKind::Text(name)
        }),
{
    let after = manifest_update::updated_workspace(nodes, name, old_version, new_version, members);
    manifest_update::lemma_update_keys();
    manifest_update::lemma_updated_package(nodes, name, old_version, new_version, members);
    manifest_facts::lemma_one_key(nodes, "package"@);
    manifest_facts::lemma_one_key(nodes, "workspace"@);
    let empty = toml::empty_table_nodes();
    let decor = crate::assign_preserving_decor::kept_decor(toml::entry(empty, "version"@));
    let child = toml::text_nodes(new_version, decor);
    let versioned = manifest_update::with_text(empty, "version"@, new_version);
    let name_decor = crate::assign_preserving_decor::kept_decor(toml::entry(versioned, "name"@));
    let name_child = toml::text_nodes(name, name_decor);
    let named = manifest_update::with_text(versioned, "name"@, name);
    toml::lemma_entry_set(empty, "version"@, child, child);
    toml::lemma_entry_set(versioned, "name"@, name_child, name_child);
    toml::lemma_other_entry(versioned, "name"@, name_child, "version"@);
    toml::lemma_entry_set(nodes, "package"@, named, named);
    lemma_text_at(after, "package"@, "version"@, new_version, decor, name);
    lemma_text_at(after, "package"@, "name"@, name, name_decor, name);
}

/// A workspace with a version for its members, or without a package, is written
/// with the new version under `workspace.package.version`. One without a package
/// does not get one.
pub proof fn shared_versions_are_written(
    nodes: Map<Seq<Seq<char>>, TomlNode>,
    name: Seq<char>,
    old_version: Seq<char>,
    new_version: Seq<char>,
    members: MembersView,
)
    requires
        nodes.contains_key(seq!["workspace"@]),
    ensures
        ({
            let after = manifest_update::updated_workspace(
                nodes,
                name,
                old_version,
                new_version,
                members,
            );
            let shared = seq!["workspace"@, "package"@, "version"@];
            &&& nodes.contains_key(shared) || !nodes.contains_key(seq!["package"@])
                ==> after.contains_key(shared) && after[shared].kind == TomlKind::Text(new_version)
            &&& !nodes.contains_key(seq!["package"@]) ==> !after.contains_key(seq!["package"@])
        }),
{
    let after = manifest_update::updated_workspace(nodes, name, old_version, new_version, members);
    let shared = seq!["workspace"@, "package"@, "version"@];
    manifest_facts::lemma_one_key(nodes, "package"@);
    manifest_facts::lemma_one_key(nodes, "workspace"@);
    manifest_facts::lemma_one_key(after, "package"@);
    manifest_facts::lemma_two_keys(nodes, "workspace"@, "package"@);
    manifest_facts::lemma_key_below(nodes, seq!["workspace"@, "package"@], "version"@);
    assert(seq!["workspace"@, "package"@].push("version"@) =~= shared);
    if nodes.contains_key(shared) || !nodes.contains_key(seq!["package"@]) {
        manifest_update::workspace_version_is_set(nodes, name, old_version, new_version, members);
        manifest_facts::manifest_texts(after, "version"@);
    }
    if !nodes.contains_key(seq!["package"@]) {
        manifest_update::virtual_workspace_stays_virtual(
            nodes,
            name,
            old_version,
            new_version,
            members,
        );
    }
}

} // verus!
