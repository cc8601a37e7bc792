//! What the manifests of a repository make of its projects.

use crate::ancestors;
use crate::finder;
use crate::finder::{FinderView, ManifestRead};
use crate::manifest;
use crate::manifest_facts;
use crate::paths;
use crate::project::ProjectKind;
use crate::toml;
use crate::toml::{TomlKind, TomlNode};
use vstd::prelude::*;
use vstd::string::*;

verus! {

/// A visit of a manifest that nobody has visited reads it.
proof fn lemma_visit(
    finder: FinderView,
    path: Seq<char>,
    relative_path: Seq<char>,
    reads: Map<Seq<Seq<char>>, ManifestRead>,
    nodes: Map<Seq<Seq<char>>, TomlNode>,
)
    requires
        paths::components(path).len() > 0,
        paths::components(path).last() == "Cargo.toml"@,
        !finder.projects.contains_key(paths::components(path)),
        forall|i: int|
            0 <= i < finder.pending.len() ==> paths::components((#[trigger] finder.pending[i]).path)
                != paths::components(path),
        reads.contains_key(paths::components(path)),
        reads[paths::components(path)] matches ManifestRead::Content(content)
            && toml::parsed_document(content@) == Ok::<_, Seq<char>>(nodes),
    ensures
        !finder::is_passed_over(finder, paths::components(path)),
        finder::found_at(reads, paths::components(path)) == finder::Found::Manifest(nodes),
        toml::has_entry(nodes, "workspace"@) == nodes.contains_key(seq!["workspace"@]),
{
    assert(!finder::pending_places(finder.pending).contains(paths::components(path)));
    manifest_facts::lemma_one_key(nodes, "workspace"@);
}

/// A package whose manifest has a version of its own is recorded at once, with
/// the name and the version of its manifest, as unchanged, and nothing else is.
pub proof fn visited_packages_are_recorded(
    finder: FinderView,
    path: Seq<char>,
    relative_path: Seq<char>,
    reads: Map<Seq<Seq<char>>, ManifestRead>,
    nodes: Map<Seq<Seq<char>>, TomlNode>,
    text: Seq<char>,
)
    requires
        paths::components(path).len() > 0,
        paths::components(path).last() == "Cargo.toml"@,
        !finder.projects.contains_key(paths::components(path)),
        forall|i: int|
            0 <= i < finder.pending.len() ==> paths::components((#[trigger] finder.pending[i]).path)
                != paths::components(path),
        reads.contains_key(paths::components(path)),
        reads[paths::components(path)] matches ManifestRead::Content(content)
            && toml::parsed_document(content@) == Ok::<_, Seq<char>>(nodes),
        !nodes.contains_key(seq!["workspace"@]),
        !(nodes.contains_key(seq!["package"@, "version"@, "workspace"@])
            && nodes[seq!["package"@, "version"@, "workspace"@]].kind == TomlKind::Flag(true)),
    ensures
        ({
            let after = finder::visited(finder, path, relative_path, reads);
            let at = paths::components(path);
            &&& after.projects == finder.projects.insert(at, after.projects[at])
            &&& after.pending == finder.pending
            &&& after.versions == finder.versions
            &&& after.members == finder.members
            &&& after.projects[at] matches ProjectKind::Package(package)
            &&& package.path == path
            &&& package.relative_path == relative_path
            &&& !package.is_changed
            &&& !package.workspace_version_inherited
            &&& package.workspace_root is None
            &&& (package.name == Some(text)) == (nodes.contains_key(seq!["package"@, "name"@])
                && nodes[seq!["package"@, "name"@]].kind == TomlKind::Text(text))
            &&& (package.version == Some(text)) == (nodes.contains_key(seq!["package"@, "version"@])
                && nodes[seq!["package"@, "version"@]].kind == TomlKind::Text(text))
        }),
{
    lemma_visit(finder, path, relative_path, reads, nodes);
    manifest_facts::manifest_texts(nodes, "name"@);
    manifest_facts::manifest_texts(nodes, "version"@);
    manifest_facts::inherited_versions_are_marked(nodes);
    let after = finder::visited(finder, path, relative_path, reads);
    let at = paths::components(path);
    assert(after.projects =~= finder.projects.insert(at, after.projects[at]));
}

/// A package that inherits its version waits for its workspace; no project is
/// recorded for it yet.
pub proof fn visited_members_are_pending(
    finder: FinderView,
    path: Seq<char>,
    relative_path: Seq<char>,
    reads: Map<Seq<Seq<char>>, ManifestRead>,
    nodes: Map<Seq<Seq<char>>, TomlNode>,
    text: Seq<char>,
)
    requires
        paths::components(path).len() > 0,
        paths::components(path).last() == "Cargo.toml"@,
        !finder.projects.contains_key(paths::components(path)),
        forall|i: int|
            0 <= i < finder.pending.len() ==> paths::components((#[trigger] finder.pending[i]).path)
                != paths::components(path),
        reads.contains_key(paths::components(path)),
        reads[paths::components(path)] matches ManifestRead::Content(content)
            && toml::parsed_document(content@) == Ok::<_, Seq<char>>(nodes),
        !nodes.contains_key(seq!["workspace"@]),
        nodes.contains_key(seq!["package"@, "version"@, "workspace"@]),
        nodes[seq!["package"@, "version"@, "workspace"@]].kind == TomlKind::Flag(true),
    ensures
        ({
            let after = finder::visited(finder, path, relative_path, reads);
            let package = after.pending.last();
            &&& after.projects == finder.projects
            &&& after.versions == finder.versions
            &&& after.members == finder.members
            &&& after.pending == finder.pending.push(package)
            &&& package.path == path
            &&& package.relative_path == relative_path
            &&& (package.name == Some(text)) == (nodes.contains_key(seq!["package"@, "name"@])
                && nodes[seq!["package"@, "name"@]].kind == TomlKind::Text(text))
        }),
{
    lemma_visit(finder, path, relative_path, reads, nodes);
    manifest_facts::manifest_texts(nodes, "name"@);
    manifest_facts::inherited_versions_are_marked(nodes);
}

/// A workspace is recorded at once, with the name of its package if it has one,
/// with the version of its package, or else with that which its members share.
/// A shared version is noted for the members.
pub proof fn visited_workspaces_are_recorded(
    finder: FinderView,
    path: Seq<char>,
    relative_path: Seq<char>,
    reads: Map<Seq<Seq<char>>, ManifestRead>,
    nodes: Map<Seq<Seq<char>>, TomlNode>,
    text: Seq<char>,
)
    requires
        paths::components(path).len() > 0,
        paths::components(path).last() == "Cargo.toml"@,
        !finder.projects.contains_key(paths::components(path)),
        forall|i: int|
            0 <= i < finder.pending.len() ==> paths::components((#[trigger] finder.pending[i]).path)
                != paths::components(path),
        reads.contains_key(paths::components(path)),
        reads[paths::components(path)] matches ManifestRead::Content(content)
            && toml::parsed_document(content@) == Ok::<_, Seq<char>>(nodes),
        nodes.contains_key(seq!["workspace"@]),
    ensures
        ({
            let after = finder::visited(finder, path, relative_path, reads);
            let at = paths::components(path);
            let own = seq!["package"@, "version"@];
            let shared = seq!["workspace"@, "package"@, "version"@];
            let has_own = nodes.contains_key(own) && nodes[own].kind is Text;
            let has_shared = nodes.contains_key(shared) && nodes[shared].kind is Text;
            &&& after.projects == finder.projects.insert(at, after.projects[at])
            &&& after.pending == finder.pending
            &&& after.rejected == finder.rejected
            &&& after.roots == finder.roots.insert(at, after.roots[at])
            &&& has_shared ==> after.versions == finder.versions.insert(at, after.versions[at])
                && after.versions[at].root_path == path && after.versions[at].version
                == nodes[shared].kind->Text_0
            &&& !has_shared ==> after.versions == finder.versions
            &&& after.projects[at] matches ProjectKind::Workspace(workspace)
            &&& workspace.path == path
            &&& workspace.relative_path == relative_path
            &&& !workspace.is_changed
            &&& (workspace.name == Some(text)) == (nodes.contains_key(seq!["package"@, "name"@])
                && nodes[seq!["package"@, "name"@]].kind == TomlKind::Text(text))
            &&& (workspace.version == Some(text)) == if has_own {
                nodes[own].kind == TomlKind::Text(text)
            } else {
                has_shared && nodes[shared].kind == TomlKind::Text(text)
            }
            &&& workspace.publishable_by_default ==> workspace.name is Some
            &&& !finder.members.contains_key(at)
                ==> workspace.inherited_workspace_members.package_names.is_empty()
                && workspace.inherited_workspace_members.dependency_aliases.is_empty()
        }),
{
    lemma_visit(finder, path, relative_path, reads, nodes);
    manifest_facts::manifest_texts(nodes, "name"@);
    manifest_facts::manifest_texts(nodes, "version"@);
    let after = finder::visited(finder, path, relative_path, reads);
    let at = paths::components(path);
    assert(after.projects =~= finder.projects.insert(at, after.projects[at]));
    assert(after.roots =~= finder.roots.insert(at, after.roots[at]));
    if after.versions.contains_key(at) {
        assert(after.versions =~= finder.versions.insert(at, after.versions[at]) || after.versions
            == finder.versions);
    }
}

/// What is recorded for a manifest: what it depends on, and whether it can be
/// published.
pub open spec fn recorded_facts(after: FinderView, at: Seq<Seq<char>>) -> (Set<Seq<char>>, bool) {
    if after.projects.contains_key(at) {
        match after.projects[at] {
            ProjectKind::Package(package) => (
                package.dependencies,
                package.publishable_by_default,
            ),
            ProjectKind::Workspace(workspace) => (
                workspace.dependencies,
                workspace.publishable_by_default,
            ),
        }
    } else {
        (after.pending.last().dependencies, after.pending.last().publishable_by_default)
    }
}

/// The nearest of some manifests above a place is the one whose directory is
/// the longest that holds it.
pub proof fn lemma_nearest(
    places: Set<Seq<Seq<char>>>,
    member: Seq<Seq<char>>,
    root: Seq<Seq<char>>,
)
    requires
        forall|other: Seq<Seq<char>>| #[trigger]
            places.contains(other) ==> other.len() > 0 && other.last() == "Cargo.toml"@,
        places.contains(root),
        root.drop_last().is_prefix_of(member),
        forall|other: Seq<Seq<char>>| #[trigger]
            places.contains(other) && other.drop_last().is_prefix_of(member) ==> other.len()
                <= root.len(),
    ensures
        finder::nearest_place(places, member) == Some(root),
{
    assert(ancestors::MANIFEST_FILE@ == "Cargo.toml"@);
    reveal_strlit("Cargo.toml");
    assert forall|other: Seq<Seq<char>>| #[trigger] places.contains(other) implies (
    ancestors::is_root_of(other, member) == other.drop_last().is_prefix_of(member)) by {
        let dir = other.drop_last();
        if other.len() == 1 && other[0] == seq!['/'] {
            assert(other.last().len() == 1);
        }
        assert(dir.len() <= member.len() ==> (member.take(dir.len() as int) == dir
            <==> dir.is_prefix_of(member)));
    }
    assert(places.contains(root));
    assert(finder::is_nearest(places, member, root));
    finder::lemma_nearest_place(places, member, root);
}

/// Where no manifest's directory holds a place there is no nearest.
pub proof fn lemma_no_nearest(places: Set<Seq<Seq<char>>>, member: Seq<Seq<char>>)
    requires
        forall|other: Seq<Seq<char>>| #[trigger]
            places.contains(other) ==> !other.drop_last().is_prefix_of(member),
    ensures
        finder::nearest_place(places, member) is None,
{
    if exists|at: Seq<Seq<char>>| #[trigger] finder::is_nearest(places, member, at) {
        let at = choose|at: Seq<Seq<char>>| #[trigger] finder::is_nearest(places, member, at);
        assert(places.contains(at));
        assert(at.drop_last().is_prefix_of(member));
    }
}

/// What a manifest depends on below a workspace root: the names that count for
/// it, read through the aliases of the nearest root, which also tells which
/// inherited dependencies have a version. An inherited `publish` is that root's.
pub proof fn dependencies_are_read_through_the_nearest_root(
    finder: FinderView,
    path: Seq<char>,
    relative_path: Seq<char>,
    reads: Map<Seq<Seq<char>>, ManifestRead>,
    nodes: Map<Seq<Seq<char>>, TomlNode>,
    root: Seq<Seq<char>>,
    name: Seq<char>,
)
    requires
        paths::components(path).len() > 0,
        paths::components(path).last() == "Cargo.toml"@,
        !finder.projects.contains_key(paths::components(path)),
        forall|i: int|
            0 <= i < finder.pending.len() ==> paths::components((#[trigger] finder.pending[i]).path)
                != paths::components(path),
        reads.contains_key(paths::components(path)),
        reads[paths::components(path)] matches ManifestRead::Content(content)
            && toml::parsed_document(content@) == Ok::<_, Seq<char>>(nodes),
        !nodes.contains_key(seq!["workspace"@]),
        ({
            let after = finder::visited(finder, path, relative_path, reads);
            &&& forall|other: Seq<Seq<char>>| #[trigger]
                after.roots.dom().contains(other) ==> other.len() > 0 && other.last()
                    == "Cargo.toml"@
            &&& after.roots.dom().contains(root)
            &&& root.drop_last().is_prefix_of(paths::components(path))
            &&& forall|other: Seq<Seq<char>>| #[trigger]
                after.roots.dom().contains(other) && other.drop_last().is_prefix_of(
                    paths::components(path),
                ) ==> other.len() <= root.len()
        }),
    ensures
        ({
            let after = finder::visited(finder, path, relative_path, reads);
            let info = after.roots[root];
            let facts = recorded_facts(after, paths::components(path));
            &&& facts.0.contains(name) <==> exists|key: Seq<char>| #[trigger]
                manifest::release_edges(nodes, info.versioned_dependencies).contains(key) && name
                    == if info.aliases.contains_key(key) {
                    info.aliases[key]
                } else {
                    key
                }
            &&& facts.1 == manifest::publish_default(nodes).resolved(Some(info.publishable))
        }),
{
    lemma_visit(finder, path, relative_path, reads, nodes);
    let after = finder::visited(finder, path, relative_path, reads);
    let info = after.roots[root];
    lemma_nearest(after.roots.dom(), paths::components(path), root);
    let edges = manifest::release_edges(nodes, info.versioned_dependencies);
    assert forall|key: Seq<char>| #[trigger] edges.contains(key) implies finder::resolved_name(
        key,
        info.aliases,
    ) == (if info.aliases.contains_key(key) {
        info.aliases[key]
    } else {
        key
    }) by {}
    assert(recorded_facts(after, paths::components(path)).0 == finder::resolved_names(
        edges,
        info.aliases,
    ));
}

/// What a manifest depends on without a workspace root above it: the names that
/// count for it, where no inherited dependency has a version.
pub proof fn dependencies_without_a_root(
    finder: FinderView,
    path: Seq<char>,
    relative_path: Seq<char>,
    reads: Map<Seq<Seq<char>>, ManifestRead>,
    nodes: Map<Seq<Seq<char>>, TomlNode>,
)
    requires
        paths::components(path).len() > 0,
        paths::components(path).last() == "Cargo.toml"@,
        !finder.projects.contains_key(paths::components(path)),
        forall|i: int|
            0 <= i < finder.pending.len() ==> paths::components((#[trigger] finder.pending[i]).path)
                != paths::components(path),
        reads.contains_key(paths::components(path)),
        reads[paths::components(path)] matches ManifestRead::Content(content)
            && toml::parsed_document(content@) == Ok::<_, Seq<char>>(nodes),
        !nodes.contains_key(seq!["workspace"@]),
        forall|other: Seq<Seq<char>>| #[trigger]
            finder::visited(finder, path, relative_path, reads).roots.dom().contains(other)
                ==> !other.drop_last().is_prefix_of(paths::components(path)),
    ensures
        ({
            let after = finder::visited(finder, path, relative_path, reads);
            let facts = recorded_facts(after, paths::components(path));
            &&& facts.0 == manifest::release_edges(nodes, Set::empty())
            &&& facts.1 == manifest::publish_default(nodes).resolved(None)
        }),
{
    lemma_visit(finder, path, relative_path, reads, nodes);
    let after = finder::visited(finder, path, relative_path, reads);
    lemma_no_nearest(after.roots.dom(), paths::components(path));
}

/// What a workspace's own package depends on: the names that count for it, read
/// through its own aliases. It can be published where it has a name and its
/// manifest allows it.
pub proof fn workspaces_are_their_own_root(
    finder: FinderView,
    path: Seq<char>,
    relative_path: Seq<char>,
    reads: Map<Seq<Seq<char>>, ManifestRead>,
    nodes: Map<Seq<Seq<char>>, TomlNode>,
    name: Seq<char>,
)
    requires
        paths::components(path).len() > 0,
        paths::components(path).last() == "Cargo.toml"@,
        !finder.projects.contains_key(paths::components(path)),
        forall|i: int|
            0 <= i < finder.pending.len() ==> paths::components((#[trigger] finder.pending[i]).path)
                != paths::components(path),
        reads.contains_key(paths::components(path)),
        reads[paths::components(path)] matches ManifestRead::Content(content)
            && toml::parsed_document(content@) == Ok::<_, Seq<char>>(nodes),
        nodes.contains_key(seq!["workspace"@]),
        forall|other: Seq<Seq<char>>| #[trigger]
            finder.roots.dom().contains(other) ==> other.len() > 0 && other.last()
                == "Cargo.toml"@ && other.drop_last() != paths::components(path),
    ensures
        ({
            let after = finder::visited(finder, path, relative_path, reads);
            let at = paths::components(path);
            let info = after.roots[at];
            let facts = recorded_facts(after, at);
            &&& after.roots.contains_key(at)
            &&& info.publishable == manifest::workspace_allows_publishing(nodes)
            &&& facts.0.contains(name) <==> exists|key: Seq<char>| #[trigger]
                manifest::release_edges(nodes, info.versioned_dependencies).contains(key) && name
                    == if info.aliases.contains_key(key) {
                    info.aliases[key]
                } else {
                    key
                }
            &&& facts.1 == (nodes.contains_key(seq!["package"@, "name"@])
                && nodes[seq!["package"@, "name"@]].kind is Text && manifest::publish_default(
                nodes,
            ).resolved(Some(info.publishable)))
        }),
{
    lemma_visit(finder, path, relative_path, reads, nodes);
    manifest_facts::manifest_texts(nodes, "name"@);
    let after = finder::visited(finder, path, relative_path, reads);
    let at = paths::components(path);
    let info = after.roots[at];
    assert forall|other: Seq<Seq<char>>| #[trigger] after.roots.dom().contains(
        other,
    ) implies other.len() > 0 && other.last() == "Cargo.toml"@ && (other.drop_last().is_prefix_of(
        at,
    ) ==> other.len() <= at.len()) by {
        if other != at {
            assert(finder.roots.dom().contains(other));
        }
        if other.drop_last().is_prefix_of(at) && other.len() > at.len() {
            assert(other.drop_last().len() <= at.len());
            assert(other.drop_last() =~= at);
        }
    }
    assert(at.drop_last().is_prefix_of(at));
    lemma_nearest(after.roots.dom(), at, at);
    let edges = manifest::release_edges(nodes, info.versioned_dependencies);
    assert forall|key: Seq<char>| #[trigger] edges.contains(key) implies finder::resolved_name(
        key,
        info.aliases,
    ) == (if info.aliases.contains_key(key) {
        info.aliases[key]
    } else {
        key
    }) by {}
    assert(recorded_facts(after, at).0 == finder::resolved_names(edges, info.aliases));
}

/// The manifests above a manifest, up to the root of the repository.
pub proof fn lemma_outer(at: Seq<Seq<char>>, steps: nat)
    requires
        2 <= steps < at.len(),
    ensures
        ancestors::outer_manifests(at, steps).len() == steps - 1,
        forall|j: int|
            0 <= j < steps - 1 ==> #[trigger] ancestors::outer_manifests(at, steps)[j] == at.take(
                at.len() - 2 - j,
            ).push("Cargo.toml"@),
{
    assert(ancestors::MANIFEST_FILE@ == "Cargo.toml"@);
}

/// A search passes over what is no root, up to the `k`-th place.
pub proof fn lemma_search_passes(
    known: Set<Seq<Seq<char>>>,
    rejected: Set<Seq<Seq<char>>>,
    reads: Map<Seq<Seq<char>>, ManifestRead>,
    list: Seq<Seq<Seq<char>>>,
    i: int,
    k: int,
    wants_version: bool,
) -> (left: Set<Seq<Seq<char>>>)
    requires
        0 <= i <= k <= list.len(),
        forall|j: int|
            i <= j < k ==> !known.contains(#[trigger] list[j]) && (rejected.contains(list[j])
                || finder::found_at(reads, list[j]) is Missing || (finder::found_at(
                reads,
                list[j],
            ) is Manifest && !finder::is_wanted(
                finder::found_at(reads, list[j])->Manifest_0,
                wants_version,
            ))),
    ensures
        finder::search(known, rejected, reads, list, i, wants_version) == finder::search(
            known,
            left,
            reads,
            list,
            k,
            wants_version,
        ),
        forall|at: Seq<Seq<char>>| #[trigger]
            left.contains(at) ==> rejected.contains(at) || exists|j: int|
                i <= j < k && #[trigger] list[j] == at,
    decreases k - i,
{
    if i == k {
        rejected
    } else {
        assert(!known.contains(list[i]));
        let next = if rejected.contains(list[i]) {
            rejected
        } else {
            rejected.insert(list[i])
        };
        let left = lemma_search_passes(known, next, reads, list, i + 1, k, wants_version);
        assert forall|at: Seq<Seq<char>>| #[trigger] left.contains(at) implies rejected.contains(at)
            || exists|j: int| i <= j < k && #[trigger] list[j] == at by {
            if !rejected.contains(at) && !next.contains(at) {
                let j = choose|j: int| i + 1 <= j < k && #[trigger] list[j] == at;
                assert(list[j] == at);
            } else if !rejected.contains(at) {
                assert(list[i] == at);
            }
        }
        left
    }
}

/// A package finds the nearest workspace above it: the first `Cargo.toml` in the
/// directories above its own, not above the repository, that has a `workspace`.
pub proof fn the_nearest_workspace_above_is_found(
    finder: FinderView,
    path: Seq<char>,
    relative_path: Seq<char>,
    reads: Map<Seq<Seq<char>>, ManifestRead>,
    nodes: Map<Seq<Seq<char>>, TomlNode>,
    outer: Map<Seq<Seq<char>>, TomlNode>,
    k: int,
)
    requires
        paths::components(path).len() > 0,
        paths::components(path).last() == "Cargo.toml"@,
        !finder.projects.contains_key(paths::components(path)),
        forall|i: int|
            0 <= i < finder.pending.len() ==> paths::components((#[trigger] finder.pending[i]).path)
                != paths::components(path),
        reads.contains_key(paths::components(path)),
        reads[paths::components(path)] matches ManifestRead::Content(content)
            && toml::parsed_document(content@) == Ok::<_, Seq<char>>(nodes),
        !nodes.contains_key(seq!["workspace"@]),
        paths::components(relative_path).len() < paths::components(path).len(),
        0 <= k < paths::components(relative_path).len() - 1,
        forall|j: int|
            0 <= j < k ==> {
                let place = #[trigger] paths::components(path).take(
                    paths::components(path).len() - 2 - j,
                ).push("Cargo.toml"@);
                &&& !finder.roots.contains_key(place)
                &&& finder.rejected.contains(place) || (reads.contains_key(place) && (
                reads[place] is Missing || (reads[place] matches ManifestRead::Content(content)
                    && (toml::parsed_document(content@) matches Ok(other) && !other.contains_key(
                    seq!["workspace"@],
                )))))
            },
        ({
            let place = paths::components(path).take(paths::components(path).len() - 2 - k).push(
                "Cargo.toml"@,
            );
            &&& !finder.roots.contains_key(place)
            &&& !finder.rejected.contains(place)
            &&& reads.contains_key(place)
            &&& reads[place] matches ManifestRead::Content(content) && toml::parsed_document(
                content@,
            ) == Ok::<_, Seq<char>>(outer)
            &&& outer.contains_key(seq!["workspace"@])
        }),
    ensures
        ({
            let place = paths::components(path).take(paths::components(path).len() - 2 - k).push(
                "Cargo.toml"@,
            );
            finder::visited(finder, path, relative_path, reads).roots == finder.roots.insert(
                place,
                finder::root_info(outer),
            )
        }),
        finder::visit_fault(finder, path, relative_path, reads) is None,
{
    lemma_visit(finder, path, relative_path, reads, nodes);
    let at = paths::components(path);
    let steps = paths::components(relative_path).len();
    let list = ancestors::outer_manifests(at, steps);
    lemma_outer(at, steps);
    assert forall|j: int| 0 <= j < k implies !finder.roots.dom().contains(#[trigger] list[j]) && (
    finder.rejected.contains(list[j]) || finder::found_at(reads, list[j]) is Missing || (
    finder::found_at(reads, list[j]) is Manifest && !finder::is_wanted(
        finder::found_at(reads, list[j])->Manifest_0,
        false,
    ))) by {
        assert(list[j] == at.take(at.len() - 2 - j).push("Cargo.toml"@));
        if finder::found_at(reads, list[j]) is Manifest {
            manifest_facts::lemma_one_key(
                finder::found_at(reads, list[j])->Manifest_0,
                "workspace"@,
            );
        }
    }
    let left = lemma_search_passes(finder.roots.dom(), finder.rejected, reads, list, 0, k, false);
    let place = list[k];
    assert(place == at.take(at.len() - 2 - k).push("Cargo.toml"@));
    manifest_facts::lemma_one_key(outer, "workspace"@);
    assert forall|j: int| 0 <= j < k implies #[trigger] list[j] != place by {
        assert(list[j].len() == at.len() - 1 - j);
        assert(place.len() == at.len() - 1 - k);
    }
    assert(!left.contains(place));
    assert(finder::found_at(reads, place) == finder::Found::Manifest(outer));
}

/// A package looks no further than the first workspace that is known, nor than
/// the root of the repository.
pub proof fn no_workspace_is_looked_for_beyond_a_known_one(
    finder: FinderView,
    path: Seq<char>,
    relative_path: Seq<char>,
    reads: Map<Seq<Seq<char>>, ManifestRead>,
    nodes: Map<Seq<Seq<char>>, TomlNode>,
    k: int,
)
    requires
        paths::components(path).len() > 0,
        paths::components(path).last() == "Cargo.toml"@,
        !finder.projects.contains_key(paths::components(path)),
        forall|i: int|
            0 <= i < finder.pending.len() ==> paths::components((#[trigger] finder.pending[i]).path)
                != paths::components(path),
        reads.contains_key(paths::components(path)),
        reads[paths::components(path)] matches ManifestRead::Content(content)
            && toml::parsed_document(content@) == Ok::<_, Seq<char>>(nodes),
        !nodes.contains_key(seq!["workspace"@]),
        2 <= paths::components(relative_path).len() < paths::components(path).len(),
        0 <= k < paths::components(relative_path).len(),
        forall|j: int|
            0 <= j < k ==> {
                let place = #[trigger] paths::components(path).take(
                    paths::components(path).len() - 2 - j,
                ).push("Cargo.toml"@);
                &&& !finder.roots.contains_key(place)
                &&& finder.rejected.contains(place) || (reads.contains_key(place) && (
                reads[place] is Missing || (reads[place] matches ManifestRead::Content(content)
                    && (toml::parsed_document(content@) matches Ok(other) && !other.contains_key(
                    seq!["workspace"@],
                )))))
            },
        k == paths::components(relative_path).len() - 1 || finder.roots.contains_key(
            paths::components(path).take(paths::components(path).len() - 2 - k).push(
                "Cargo.toml"@,
            ),
        ),
    ensures
        finder::visited(finder, path, relative_path, reads).roots == finder.roots,
        finder::visit_fault(finder, path, relative_path, reads) is None,
{
    lemma_visit(finder, path, relative_path, reads, nodes);
    let at = paths::components(path);
    let steps = paths::components(relative_path).len();
    let list = ancestors::outer_manifests(at, steps);
    lemma_outer(at, steps);
    assert forall|j: int| 0 <= j < k implies !finder.roots.dom().contains(#[trigger] list[j]) && (
    finder.rejected.contains(list[j]) || finder::found_at(reads, list[j]) is Missing || (
    finder::found_at(reads, list[j]) is Manifest && !finder::is_wanted(
        finder::found_at(reads, list[j])->Manifest_0,
        false,
    ))) by {
        assert(list[j] == at.take(at.len() - 2 - j).push("Cargo.toml"@));
        if finder::found_at(reads, list[j]) is Manifest {
            manifest_facts::lemma_one_key(
                finder::found_at(reads, list[j])->Manifest_0,
                "workspace"@,
            );
        }
    }
    let left = lemma_search_passes(finder.roots.dom(), finder.rejected, reads, list, 0, k, false);
    if k < steps - 1 {
        assert(list[k] == at.take(at.len() - 2 - k).push("Cargo.toml"@));
    }
}

} // verus!
