//! What packages inherit from their workspaces.

use crate::ancestors;
use crate::finder;
use crate::finder::{FinderView, FoundRoot, ManifestRead, PendingView};
use crate::found_projects;
use crate::manifest_facts;
use crate::paths;
use crate::project::ProjectKind;
use crate::toml;
use crate::toml::TomlNode;
use vstd::prelude::*;
use vstd::string::*;

verus! {

/// Resolving packages changes neither the versions nor the roots.
proof fn lemma_resolving_keeps(finder: FinderView, pending: Seq<PendingView>, n: nat)
    requires
        n <= pending.len(),
    ensures
        finder::with_resolved(finder, pending, n).versions == finder.versions,
        finder::with_resolved(finder, pending, n).roots == finder.roots,
    decreases n,
{
    if n > 0 {
        lemma_resolving_keeps(finder, pending, (n - 1) as nat);
    }
}

/// A resolved package stays as it is when others are resolved.
proof fn lemma_resolved_stays(finder: FinderView, pending: Seq<PendingView>, i: int, n: nat)
    requires
        0 <= i < n <= pending.len(),
        forall|j: int|
            i < j < n ==> paths::components((#[trigger] pending[j]).path) != paths::components(
                pending[i].path,
            ),
    ensures
        ({
            let here = paths::components(pending[i].path);
            let then = finder::with_resolved(finder, pending, (i + 1) as nat);
            let after = finder::with_resolved(finder, pending, n);
            then.projects.contains_key(here) && then.projects[here] is Package
                && after.projects.contains_key(here) && after.projects[here] == then.projects[here]
        }),
    decreases n,
{
    if n > i + 1 {
        lemma_resolved_stays(finder, pending, i, (n - 1) as nat);
        assert(paths::components(pending[n - 1].path) != paths::components(pending[i].path));
    }
}

/// A member takes its version from the nearest workspace above it that has one
/// for its members, knows that workspace, and reads its dependencies through
/// the aliases of that workspace. The rest of it is as its manifest had it.
pub proof fn members_take_the_version_of_their_workspace(
    finder: FinderView,
    reads: Map<Seq<Seq<char>>, ManifestRead>,
    i: int,
    root: Seq<Seq<char>>,
    name: Seq<char>,
)
    requires
        0 <= i < finder.pending.len(),
        forall|j: int|
            i < j < finder.pending.len() ==> paths::components((#[trigger] finder.pending[j]).path)
                != paths::components(finder.pending[i].path),
        ({
            let versions = finder::finalized(finder, reads).versions;
            let here = paths::components(finder.pending[i].path);
            &&& forall|other: Seq<Seq<char>>| #[trigger]
                versions.dom().contains(other) ==> other.len() > 0 && other.last() == "Cargo.toml"@
            &&& versions.dom().contains(root)
            &&& root.drop_last().is_prefix_of(here)
            &&& forall|other: Seq<Seq<char>>| #[trigger]
                versions.dom().contains(other) && other.drop_last().is_prefix_of(here)
                    ==> other.len() <= root.len()
        }),
    ensures
        ({
            let after = finder::finalized(finder, reads);
            let waiting = finder.pending[i];
            let here = paths::components(waiting.path);
            &&& after.projects.contains_key(here)
            &&& after.projects[here] matches ProjectKind::Package(package)
            &&& package.version == Some(after.versions[root].version)
            &&& package.workspace_root == Some(after.versions[root].root_path)
            &&& package.workspace_version_inherited
            &&& package.name == waiting.name
            &&& package.path == waiting.path
            &&& package.relative_path == waiting.relative_path
            &&& package.publishable_by_default == waiting.publishable_by_default
            &&& !package.is_changed
            &&& package.dependencies.contains(name) <==> exists|key: Seq<char>| #[trigger]
                waiting.dependencies.contains(key) && name == if after.roots.contains_key(root)
                    && after.roots[root].aliases.contains_key(key) {
                    after.roots[root].aliases[key]
                } else {
                    key
                }
        }),
{
    let emptied = FinderView { pending: Seq::empty(), ..finder };
    let found = finder::discovered(
        finder.versions.dom(),
        finder.pending,
        reads,
        finder.pending.len(),
    );
    let start = finder::with_found_roots(emptied, found.roots, found.roots.len());
    let after = finder::finalized(finder, reads);
    let waiting = finder.pending[i];
    let here = paths::components(waiting.path);
    lemma_resolving_keeps(start, finder.pending, finder.pending.len());
    lemma_resolving_keeps(start, finder.pending, i as nat);
    lemma_resolved_stays(start, finder.pending, i, finder.pending.len());
    found_projects::lemma_nearest(after.versions.dom(), here, root);
    let then = finder::with_resolved(start, finder.pending, (i + 1) as nat);
    let before = finder::with_resolved(start, finder.pending, i as nat);
    assert(then == finder::with_workspace_member(before, waiting, Some(root)));
    let package = after.projects[here]->Package_0;
    let aliases = finder::root_aliases(before.roots, root);
    assert(package.dependencies == finder::resolved_names(waiting.dependencies, aliases));
    assert forall|key: Seq<char>| #[trigger] waiting.dependencies.contains(
        key,
    ) implies finder::resolved_name(key, aliases) == (if after.roots.contains_key(root)
        && after.roots[root].aliases.contains_key(key) {
        after.roots[root].aliases[key]
    } else {
        key
    }) by {}
}

/// A member without such a workspace has no version, and its dependencies are
/// those that its manifest names.
pub proof fn members_without_a_workspace_have_no_version(
    finder: FinderView,
    reads: Map<Seq<Seq<char>>, ManifestRead>,
    i: int,
)
    requires
        0 <= i < finder.pending.len(),
        forall|j: int|
            i < j < finder.pending.len() ==> paths::components((#[trigger] finder.pending[j]).path)
                != paths::components(finder.pending[i].path),
        forall|other: Seq<Seq<char>>| #[trigger]
            finder::finalized(finder, reads).versions.dom().contains(other)
                ==> !other.drop_last().is_prefix_of(paths::components(finder.pending[i].path)),
    ensures
        ({
            let after = finder::finalized(finder, reads);
            let waiting = finder.pending[i];
            let here = paths::components(waiting.path);
            &&& after.projects.contains_key(here)
            &&& after.projects[here] matches ProjectKind::Package(package)
            &&& package.version is None
            &&& package.workspace_root is None
            &&& package.workspace_version_inherited
            &&& package.name == waiting.name
            &&& package.path == waiting.path
            &&& package.relative_path == waiting.relative_path
            &&& package.publishable_by_default == waiting.publishable_by_default
            &&& !package.is_changed
            &&& package.dependencies == waiting.dependencies
        }),
{
    let emptied = FinderView { pending: Seq::empty(), ..finder };
    let found = finder::discovered(
        finder.versions.dom(),
        finder.pending,
        reads,
        finder.pending.len(),
    );
    let start = finder::with_found_roots(emptied, found.roots, found.roots.len());
    let after = finder::finalized(finder, reads);
    let waiting = finder.pending[i];
    let here = paths::components(waiting.path);
    lemma_resolving_keeps(start, finder.pending, finder.pending.len());
    lemma_resolving_keeps(start, finder.pending, i as nat);
    lemma_resolved_stays(start, finder.pending, i, finder.pending.len());
    found_projects::lemma_no_nearest(after.versions.dom(), here);
    let then = finder::with_resolved(start, finder.pending, (i + 1) as nat);
    let before = finder::with_resolved(start, finder.pending, i as nat);
    assert(then == finder::with_workspace_member(before, waiting, None));
    let package = after.projects[here]->Package_0;
    assert(package.dependencies == finder::resolved_names(waiting.dependencies, Map::empty()));
    assert forall|name: Seq<char>| #[trigger] package.dependencies.contains(name)
        == waiting.dependencies.contains(name) by {
        if waiting.dependencies.contains(name) {
            assert(finder::resolved_name(name, Map::empty()) == name);
        }
    }
    assert(package.dependencies =~= waiting.dependencies);
}

/// Adding roots leaves the members of every root as they were.
proof fn lemma_roots_keep_members(
    finder: FinderView,
    roots: Seq<FoundRoot>,
    n: nat,
    at: Seq<Seq<char>>,
)
    requires
        n <= roots.len(),
    ensures
        finder::members_at(finder::with_found_roots(finder, roots, n).members, at)
            == finder::members_at(finder.members, at),
    decreases n,
{
    if n > 0 {
        lemma_roots_keep_members(finder, roots, (n - 1) as nat, at);
    }
}

/// Members stay members when others are resolved.
proof fn lemma_members_stay(
    finder: FinderView,
    pending: Seq<PendingView>,
    m: nat,
    n: nat,
    at: Seq<Seq<char>>,
)
    requires
        m <= n <= pending.len(),
    ensures
        ({
            let then = finder::members_at(finder::with_resolved(finder, pending, m).members, at);
            let after = finder::members_at(finder::with_resolved(finder, pending, n).members, at);
            then.package_names.subset_of(after.package_names)
                && then.dependency_aliases.subset_of(after.dependency_aliases)
        }),
    decreases n,
{
    if m < n {
        lemma_members_stay(finder, pending, m, (n - 1) as nat, at);
    }
}

/// A workspace knows each member that inherits its version, by its name and by
/// the aliases that stand for it.
pub proof fn workspaces_know_their_members(
    finder: FinderView,
    reads: Map<Seq<Seq<char>>, ManifestRead>,
    i: int,
    root: Seq<Seq<char>>,
    name: Seq<char>,
    key: Seq<char>,
)
    requires
        0 <= i < finder.pending.len(),
        finder.pending[i].name == Some(name),
        ({
            let versions = finder::finalized(finder, reads).versions;
            let here = paths::components(finder.pending[i].path);
            &&& forall|other: Seq<Seq<char>>| #[trigger]
                versions.dom().contains(other) ==> other.len() > 0 && other.last() == "Cargo.toml"@
            &&& versions.dom().contains(root)
            &&& root.drop_last().is_prefix_of(here)
            &&& forall|other: Seq<Seq<char>>| #[trigger]
                versions.dom().contains(other) && other.drop_last().is_prefix_of(here)
                    ==> other.len() <= root.len()
        }),
    ensures
        ({
            let after = finder::finalized(finder, reads);
            &&& after.members.contains_key(root)
            &&& after.members[root].package_names.contains(name)
            &&& after.roots.contains_key(root) && after.roots[root].aliases.contains_key(key)
                && after.roots[root].aliases[key] == name
                ==> after.members[root].dependency_aliases.contains(key)
        }),
{
    let emptied = FinderView { pending: Seq::empty(), ..finder };
    let found = finder::discovered(
        finder.versions.dom(),
        finder.pending,
        reads,
        finder.pending.len(),
    );
    let start = finder::with_found_roots(emptied, found.roots, found.roots.len());
    let after = finder::finalized(finder, reads);
    let waiting = finder.pending[i];
    let here = paths::components(waiting.path);
    lemma_resolving_keeps(start, finder.pending, finder.pending.len());
    lemma_resolving_keeps(start, finder.pending, i as nat);
    found_projects::lemma_nearest(after.versions.dom(), here, root);
    let then = finder::with_resolved(start, finder.pending, (i + 1) as nat);
    let before = finder::with_resolved(start, finder.pending, i as nat);
    assert(then == finder::with_workspace_member(before, waiting, Some(root)));
    assert(finder::members_at(then.members, root).package_names.contains(name));
    lemma_members_stay(start, finder.pending, (i + 1) as nat, finder.pending.len(), root);
    assert(finder::members_at(after.members, root).package_names.contains(name));
}

/// A member that a workspace knows was known before, or inherits its version.
proof fn lemma_member_comes_from(
    finder: FinderView,
    pending: Seq<PendingView>,
    n: nat,
    root: Seq<Seq<char>>,
    name: Seq<char>,
) -> (i: int)
    requires
        n <= pending.len(),
        finder::members_at(
            finder::with_resolved(finder, pending, n).members,
            root,
        ).package_names.contains(name),
        !finder::members_at(finder.members, root).package_names.contains(name),
    ensures
        0 <= i < n,
        pending[i].name == Some(name),
        finder::nearest_place(finder.versions.dom(), paths::components(pending[i].path)) == Some(
            root,
        ),
    decreases n,
{
    let earlier = finder::with_resolved(finder, pending, (n - 1) as nat);
    lemma_resolving_keeps(finder, pending, (n - 1) as nat);
    if finder::members_at(earlier.members, root).package_names.contains(name) {
        lemma_member_comes_from(finder, pending, (n - 1) as nat, root, name)
    } else {
        n - 1
    }
}

/// A workspace knows no other members: each that it did not know before is a
/// package that inherits its version from the directory of that workspace.
pub proof fn workspaces_know_no_other_members(
    finder: FinderView,
    reads: Map<Seq<Seq<char>>, ManifestRead>,
    root: Seq<Seq<char>>,
    name: Seq<char>,
) -> (i: int)
    requires
        finder::finalized(finder, reads).members.contains_key(root),
        finder::finalized(finder, reads).members[root].package_names.contains(name),
        !(finder.members.contains_key(root) && finder.members[root].package_names.contains(name)),
    ensures
        0 <= i < finder.pending.len(),
        finder.pending[i].name == Some(name),
        root.drop_last().is_prefix_of(paths::components(finder.pending[i].path)),
        finder::finalized(finder, reads).versions.contains_key(root),
{
    let emptied = FinderView { pending: Seq::empty(), ..finder };
    let found = finder::discovered(
        finder.versions.dom(),
        finder.pending,
        reads,
        finder.pending.len(),
    );
    let start = finder::with_found_roots(emptied, found.roots, found.roots.len());
    lemma_roots_keep_members(emptied, found.roots, found.roots.len(), root);
    lemma_resolving_keeps(start, finder.pending, finder.pending.len());
    let i = lemma_member_comes_from(start, finder.pending, finder.pending.len(), root, name);
    let here = paths::components(finder.pending[i].path);
    assert(finder::is_nearest(start.versions.dom(), here, root));
    assert(root.drop_last().is_prefix_of(here));
    i
}

/// What a search rejects is no root, and what it finds is one.
proof fn lemma_search_keeps(
    known: Set<Seq<Seq<char>>>,
    rejected: Set<Seq<Seq<char>>>,
    reads: Map<Seq<Seq<char>>, ManifestRead>,
    list: Seq<Seq<Seq<char>>>,
    i: int,
    wants_version: bool,
)
    requires
        forall|at: Seq<Seq<char>>| #[trigger]
            rejected.contains(at) ==> !(finder::found_at(reads, at) is Manifest
                && finder::is_wanted(finder::found_at(reads, at)->Manifest_0, wants_version)),
    ensures
        ({
            let outcome = finder::search(known, rejected, reads, list, i, wants_version);
            &&& forall|at: Seq<Seq<char>>| #[trigger]
                outcome.rejected.contains(at) ==> !(finder::found_at(reads, at) is Manifest
                    && finder::is_wanted(finder::found_at(reads, at)->Manifest_0, wants_version))
            &&& outcome.root matches Some((at, nodes)) ==> finder::found_at(reads, at)
                == finder::Found::Manifest(nodes) && finder::is_wanted(nodes, wants_version)
        }),
    decreases list.len() - i,
{
    if !(i < 0 || i >= list.len() || known.contains(list[i])) {
        if rejected.contains(list[i]) {
            lemma_search_keeps(known, rejected, reads, list, i + 1, wants_version);
        } else {
            match finder::found_at(reads, list[i]) {
                finder::Found::Missing => {
                    lemma_search_keeps(
                        known,
                        rejected.insert(list[i]),
                        reads,
                        list,
                        i + 1,
                        wants_version,
                    );
                },
                finder::Found::Manifest(nodes) => {
                    if !finder::is_wanted(nodes, wants_version) {
                        lemma_search_keeps(
                            known,
                            rejected.insert(list[i]),
                            reads,
                            list,
                            i + 1,
                            wants_version,
                        );
                    }
                },
                _ => {},
            }
        }
    }
}

/// What the searches for the roots of packages reject is no root, and what they
/// find are roots.
proof fn lemma_discovered_keeps(
    known: Set<Seq<Seq<char>>>,
    pending: Seq<PendingView>,
    reads: Map<Seq<Seq<char>>, ManifestRead>,
    n: nat,
)
    requires
        n <= pending.len(),
    ensures
        ({
            let found = finder::discovered(known, pending, reads, n);
            &&& forall|at: Seq<Seq<char>>| #[trigger]
                found.rejected.contains(at) ==> !(finder::found_at(reads, at) is Manifest
                    && finder::is_wanted(finder::found_at(reads, at)->Manifest_0, true))
            &&& forall|i: int|
                0 <= i < found.roots.len() ==> finder::found_at(
                    reads,
                    (#[trigger] found.roots[i]).at,
                ) == finder::Found::Manifest(found.roots[i].nodes) && finder::is_wanted(
                    found.roots[i].nodes,
                    true,
                )
        }),
    decreases n,
{
    if n > 0 {
        lemma_discovered_keeps(known, pending, reads, (n - 1) as nat);
        let earlier = finder::discovered(known, pending, reads, (n - 1) as nat);
        if earlier.fault is None {
            let package = pending[n - 1];
            lemma_search_keeps(
                known.union(finder::root_places(earlier.roots)),
                earlier.rejected,
                reads,
                ancestors::outer_manifests(
                    paths::components(package.path),
                    paths::components(package.relative_path).len(),
                ),
                0,
                true,
            );
        }
    }
}

/// Roots that were found stay found, and no fault goes away.
proof fn lemma_discovered_grows(
    known: Set<Seq<Seq<char>>>,
    pending: Seq<PendingView>,
    reads: Map<Seq<Seq<char>>, ManifestRead>,
    m: nat,
    n: nat,
)
    requires
        m <= n <= pending.len(),
    ensures
        ({
            let then = finder::discovered(known, pending, reads, m);
            let after = finder::discovered(known, pending, reads, n);
            &&& then.roots.len() <= after.roots.len()
            &&& forall|i: int|
                0 <= i < then.roots.len() ==> after.roots[i] == #[trigger] then.roots[i]
            &&& then.fault is Some ==> after.fault is Some
        }),
    decreases n,
{
    if m < n {
        lemma_discovered_grows(known, pending, reads, m, (n - 1) as nat);
    }
}

/// The version of a root that was found is that of its manifest.
proof fn lemma_root_version(
    finder: FinderView,
    roots: Seq<FoundRoot>,
    n: nat,
    r: int,
)
    requires
        0 <= r < n <= roots.len(),
        forall|i: int|
            0 <= i < n && (#[trigger] roots[i]).at == roots[r].at ==> roots[i].nodes
                == roots[r].nodes,
    ensures
        ({
            let after = finder::with_found_roots(finder, roots, n);
            &&& after.versions.contains_key(roots[r].at)
            &&& after.versions[roots[r].at].version == crate::manifest::workspace_package_text(
                roots[r].nodes,
                "version"@,
            )->0
            &&& after.versions[roots[r].at].root_path == paths::rendered(roots[r].at)
        }),
    decreases n,
{
    if r < n - 1 {
        lemma_root_version(finder, roots, (n - 1) as nat, r);
    }
}

/// The workspace of a member is found where nobody has visited it: it is the
/// first `Cargo.toml` in the directories above the member's own, not above the
/// repository, that has a version for its members. That version is noted.
pub proof fn workspaces_of_members_are_found(
    finder: FinderView,
    reads: Map<Seq<Seq<char>>, ManifestRead>,
    i: int,
    k: int,
    outer: Map<Seq<Seq<char>>, TomlNode>,
)
    requires
        0 <= i < finder.pending.len(),
        finder::discovered(
            finder.versions.dom(),
            finder.pending,
            reads,
            finder.pending.len(),
        ).fault is None,
        paths::components(finder.pending[i].relative_path).len() < paths::components(
            finder.pending[i].path,
        ).len(),
        0 <= k < paths::components(finder.pending[i].relative_path).len() - 1,
        ({
            let here = paths::components(finder.pending[i].path);
            let shared = seq!["workspace"@, "package"@, "version"@];
            &&& forall|j: int|
                0 <= j < k ==> {
                    let place = #[trigger] here.take(here.len() - 2 - j).push("Cargo.toml"@);
                    &&& !finder.versions.contains_key(place)
                    &&& reads.contains_key(place)
                    &&& reads[place] is Missing || (reads[place] matches ManifestRead::Content(
                        content,
                    ) && (toml::parsed_document(content@) matches Ok(other) && !(
                    other.contains_key(shared) && other[shared].kind is Text)))
                }
            &&& !finder.versions.contains_key(here.take(here.len() - 2 - k).push("Cargo.toml"@))
            &&& reads.contains_key(here.take(here.len() - 2 - k).push("Cargo.toml"@))
            &&& reads[here.take(here.len() - 2 - k).push(
                "Cargo.toml"@,
            )] matches ManifestRead::Content(content) && toml::parsed_document(content@) == Ok::<
                _,
                Seq<char>,
            >(outer)
            &&& outer.contains_key(shared)
            &&& outer[shared].kind is Text
        }),
    ensures
        ({
            let here = paths::components(finder.pending[i].path);
            let place = here.take(here.len() - 2 - k).push("Cargo.toml"@);
            let after = finder::finalized(finder, reads);
            &&& after.versions.contains_key(place)
            &&& after.versions[place].version == outer[seq![
                "workspace"@,
                "package"@,
                "version"@,
            ]].kind->Text_0
            &&& after.versions[place].root_path == paths::rendered(place)
        }),
{
    let known = finder.versions.dom();
    let pending = finder.pending;
    let waiting = pending[i];
    let here = paths::components(waiting.path);
    let steps = paths::components(waiting.relative_path).len();
    let shared = seq!["workspace"@, "package"@, "version"@];
    let list = ancestors::outer_manifests(here, steps);
    let earlier = finder::discovered(known, pending, reads, i as nat);
    let then = finder::discovered(known, pending, reads, (i + 1) as nat);
    let found = finder::discovered(known, pending, reads, pending.len());
    lemma_discovered_keeps(known, pending, reads, i as nat);
    lemma_discovered_keeps(known, pending, reads, pending.len());
    lemma_discovered_grows(known, pending, reads, i as nat, pending.len());
    lemma_discovered_grows(known, pending, reads, (i + 1) as nat, pending.len());
    found_projects::lemma_outer(here, steps);
    let seen = known.union(finder::root_places(earlier.roots));
    let place = here.take(here.len() - 2 - k).push("Cargo.toml"@);
    assert(list[k] == place);
    manifest_facts::manifest_texts(outer, "version"@);
    assert(finder::found_at(reads, place) == finder::Found::Manifest(outer));
    assert(finder::is_wanted(outer, true));
    assert(!earlier.rejected.contains(place));
    assert forall|j: int| 0 <= j < k implies !seen.contains(#[trigger] list[j]) && (
    earlier.rejected.contains(list[j]) || finder::found_at(reads, list[j]) is Missing || (
    finder::found_at(reads, list[j]) is Manifest && !finder::is_wanted(
        finder::found_at(reads, list[j])->Manifest_0,
        true,
    ))) by {
        assert(list[j] == here.take(here.len() - 2 - j).push("Cargo.toml"@));
        if finder::found_at(reads, list[j]) is Manifest {
            manifest_facts::manifest_texts(
                finder::found_at(reads, list[j])->Manifest_0,
                "version"@,
            );
        }
        if finder::root_places(earlier.roots).contains(list[j]) {
            let r = choose|r: int|
                0 <= r < earlier.roots.len() && (#[trigger] earlier.roots[r]).at == list[j];
            assert(finder::is_wanted(earlier.roots[r].nodes, true));
        }
    }
    let left = found_projects::lemma_search_passes(
        seen,
        earlier.rejected,
        reads,
        list,
        0,
        k,
        true,
    );
    assert forall|j: int| 0 <= j < k implies #[trigger] list[j] != place by {
        assert(list[j].len() == here.len() - 1 - j);
        assert(place.len() == here.len() - 1 - k);
    }
    assert(!left.contains(place));
    assert(finder::root_places(then.roots).contains(place)) by {
        if finder::root_places(earlier.roots).contains(place) {
            let r = choose|r: int|
                0 <= r < earlier.roots.len() && (#[trigger] earlier.roots[r]).at == place;
            lemma_discovered_grows(known, pending, reads, i as nat, (i + 1) as nat);
            assert(then.roots[r] == earlier.roots[r]);
        } else {
            assert(!seen.contains(place));
            assert(then.roots.last().at == place);
            assert(then.roots[then.roots.len() - 1].at == place);
        }
    }
    let r = choose|r: int| 0 <= r < then.roots.len() && (#[trigger] then.roots[r]).at == place;
    assert(found.roots[r] == then.roots[r]);
    assert(finder::found_at(reads, found.roots[r].at) == finder::Found::Manifest(
        found.roots[r].nodes,
    ));
    let emptied = FinderView { pending: Seq::empty(), ..finder };
    assert forall|q: int|
        0 <= q < found.roots.len() && (#[trigger] found.roots[q]).at
            == found.roots[r].at implies found.roots[q].nodes == found.roots[r].nodes by {}
    lemma_root_version(emptied, found.roots, found.roots.len(), r);
    let start = finder::with_found_roots(emptied, found.roots, found.roots.len());
    lemma_resolving_keeps(start, pending, pending.len());
}

} // verus!
