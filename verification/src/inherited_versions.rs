//! Where the members of a workspace have their version from, whatever the order
//! in which the manifests are visited.

use crate::ancestors;
use crate::finder;
use crate::finder::{Discovery, FinderView, Found, FoundRoot, ManifestRead, PendingView};
use crate::manifest;
use crate::package::PackageView;
use crate::paths;
use crate::project::ProjectKind;
use crate::toml;
use crate::toml::TomlNode;
use vstd::prelude::*;

verus! {

/// A manifest that is visited, by its path and its path below the repository.
pub struct Visit {
    pub path: Seq<char>,
    pub relative_path: Seq<char>,
}

/// The place of a visited manifest.
pub open spec fn place(visit: Visit) -> Seq<Seq<char>> {
    paths::components(visit.path)
}

/// A finder that has found nothing.
pub open spec fn nothing_found() -> FinderView {
    FinderView {
        projects: Map::empty(),
        versions: Map::empty(),
        roots: Map::empty(),
        rejected: Set::empty(),
        members: Map::empty(),
        pending: Seq::empty(),
    }
}

/// A finder after the first `n` visits.
pub open spec fn after_visits(
    visits: Seq<Visit>,
    reads: Map<Seq<Seq<char>>, ManifestRead>,
    n: nat,
) -> FinderView
    decreases n,
{
    if n == 0 {
        nothing_found()
    } else {
        finder::visited(
            after_visits(visits, reads, (n - 1) as nat),
            visits[n - 1].path,
            visits[n - 1].relative_path,
            reads,
        )
    }
}

/// No visit fails.
pub open spec fn visits_succeed(
    visits: Seq<Visit>,
    reads: Map<Seq<Seq<char>>, ManifestRead>,
) -> bool {
    forall|n: int|
        0 <= n < visits.len() ==> finder::visit_fault(
            after_visits(visits, reads, n as nat),
            (#[trigger] visits[n]).path,
            visits[n].relative_path,
            reads,
        ) is None
}

/// No visit fails, and finalizing does not fail.
pub open spec fn succeed(visits: Seq<Visit>, reads: Map<Seq<Seq<char>>, ManifestRead>) -> bool {
    let all = after_visits(visits, reads, visits.len());
    &&& visits_succeed(visits, reads)
    &&& finder::discovered(
        all.versions.dom(),
        all.pending,
        reads,
        all.pending.len(),
    ).fault is None
}

/// The path of a manifest is its path in the repository, below the repository.
pub open spec fn is_inside(
    repository: Seq<Seq<char>>,
    path: Seq<char>,
    relative_path: Seq<char>,
) -> bool {
    &&& paths::components(path) == repository + paths::components(relative_path)
    &&& paths::components(relative_path).len() > 0
    &&& ancestors::fewest(paths::components(path)) <= repository.len()
}

/// Every visited manifest lies in the repository.
pub open spec fn all_inside(repository: Seq<Seq<char>>, visits: Seq<Visit>) -> bool {
    forall|n: int|
        0 <= n < visits.len() ==> is_inside(
            repository,
            (#[trigger] visits[n]).path,
            visits[n].relative_path,
        )
}

/// What was read is a tree of files: keys stand only in what stands there
/// itself, and no file is also a directory that another lies in.
pub open spec fn is_file_tree(reads: Map<Seq<Seq<char>>, ManifestRead>) -> bool {
    &&& forall|at: Seq<Seq<char>>|
        (#[trigger] finder::found_at(reads, at)) is Manifest ==> toml::is_rooted(
            finder::found_at(reads, at)->Manifest_0,
        )
    &&& forall|at: Seq<Seq<char>>, other: Seq<Seq<char>>|
        (#[trigger] finder::found_at(reads, at)) is Manifest && (#[trigger] finder::found_at(
            reads,
            other,
        )) is Manifest ==> other.drop_last() != at
}

/// The version that the manifest at a place lets members inherit.
pub open spec fn declared(
    reads: Map<Seq<Seq<char>>, ManifestRead>,
    at: Seq<Seq<char>>,
) -> Option<Seq<char>> {
    match finder::found_at(reads, at) {
        Found::Manifest(nodes) => manifest::workspace_package_text(nodes, "version"@),
        _ => None,
    }
}

/// The manifest is that of a member: it is no workspace, and inherits its
/// version.
pub open spec fn is_member(nodes: Map<Seq<Seq<char>>, TomlNode>) -> bool {
    &&& !toml::has_entry(nodes, "workspace"@)
    &&& manifest::is_inherited(manifest::entry2(nodes, "package"@, "version"@))
}

/// The manifest at a place is that of a member.
pub open spec fn is_member_at(
    reads: Map<Seq<Seq<char>>, ManifestRead>,
    at: Seq<Seq<char>>,
) -> bool {
    finder::found_at(reads, at) matches Found::Manifest(nodes) && is_member(nodes)
}

/// The first of the places, from the `i`th on, whose manifest lets members
/// inherit a version.
pub open spec fn first_declaring(
    reads: Map<Seq<Seq<char>>, ManifestRead>,
    list: Seq<Seq<Seq<char>>>,
    i: int,
) -> Option<Seq<Seq<char>>>
    decreases list.len() - i,
{
    if i < 0 || i >= list.len() {
        None
    } else if declared(reads, list[i]) is Some {
        Some(list[i])
    } else {
        first_declaring(reads, list, i + 1)
    }
}

/// The deepest manifest above a member, inside its repository, that lets members
/// inherit a version.
pub open spec fn deepest_root(
    reads: Map<Seq<Seq<char>>, ManifestRead>,
    at: Seq<Seq<char>>,
    steps: nat,
) -> Option<Seq<Seq<char>>> {
    first_declaring(reads, ancestors::outer_manifests(at, steps), 0)
}

/// A root with the version that its manifest lets members inherit, somewhere in
/// the repository.
spec fn is_root_at(
    reads: Map<Seq<Seq<char>>, ManifestRead>,
    repository: Seq<Seq<char>>,
    at: Seq<Seq<char>>,
    version: Seq<char>,
) -> bool {
    &&& declared(reads, at) == Some(version)
    &&& ancestors::is_manifest_place(at)
    &&& repository.len() < at.len()
    &&& at.take(repository.len() as int) == repository
}

/// The project at a place is a workspace, by a path to that place.
spec fn is_workspace_at(finder: FinderView, at: Seq<Seq<char>>) -> bool {
    finder.projects.contains_key(at) && match finder.projects[at] {
        ProjectKind::Workspace(workspace) => paths::components(workspace.path) == at,
        ProjectKind::Package(_) => false,
    }
}

/// Every version that members can inherit is what the manifest of a workspace
/// in the repository says.
spec fn versions_are_declared(
    finder: FinderView,
    reads: Map<Seq<Seq<char>>, ManifestRead>,
    repository: Seq<Seq<char>>,
) -> bool {
    forall|at: Seq<Seq<char>>| #[trigger]
        finder.versions.contains_key(at) ==> {
            &&& is_root_at(reads, repository, at, finder.versions[at].version)
            &&& paths::components(finder.versions[at].root_path) == at
            &&& is_workspace_at(finder, at)
        }
}

/// Every pending package is a member in the repository, at a place of its own.
spec fn pending_are_members(
    pending: Seq<PendingView>,
    reads: Map<Seq<Seq<char>>, ManifestRead>,
    repository: Seq<Seq<char>>,
) -> bool {
    &&& forall|i: int|
        0 <= i < pending.len() ==> {
            &&& is_member_at(reads, paths::components((#[trigger] pending[i]).path))
            &&& is_inside(repository, pending[i].path, pending[i].relative_path)
            &&& ancestors::is_manifest_place(paths::components(pending[i].path))
        }
    &&& forall|i: int, j: int|
        0 <= i < j < pending.len() ==> paths::components((#[trigger] pending[i]).path)
            != paths::components((#[trigger] pending[j]).path)
}

/// No project is a member that inherits its version.
spec fn projects_are_settled(
    finder: FinderView,
    reads: Map<Seq<Seq<char>>, ManifestRead>,
) -> bool {
    forall|at: Seq<Seq<char>>| #[trigger]
        finder.projects.contains_key(at) ==> finder::found_at(reads, at) is Manifest
            && !is_member_at(reads, at)
}

spec fn is_consistent(
    finder: FinderView,
    reads: Map<Seq<Seq<char>>, ManifestRead>,
    repository: Seq<Seq<char>>,
) -> bool {
    &&& versions_are_declared(finder, reads, repository)
    &&& pending_are_members(finder.pending, reads, repository)
    &&& projects_are_settled(finder, reads)
}

/// A manifest that lets members inherit a version is that of a workspace.
proof fn lemma_declares_in_workspace(nodes: Map<Seq<Seq<char>>, TomlNode>)
    requires
        toml::is_rooted(nodes),
        manifest::workspace_package_text(nodes, "version"@) is Some,
    ensures
        toml::has_entry(nodes, "workspace"@),
{
    let none = Seq::<Seq<char>>::empty();
    let workspace = "workspace"@;
    let package = "package"@;
    let version = "version"@;
    let third = seq![workspace] + (seq![package] + (seq![version] + none));
    assert(nodes.contains_key(third));
    assert(third.drop_last() =~= seq![workspace] + seq![package]);
    assert(nodes.contains_key(third.drop_last()));
    assert(third.drop_last().drop_last() =~= seq![workspace] + none);
    assert(nodes.contains_key(third.drop_last().drop_last()));
}

/// A visit keeps what a finder knows in line with the manifests.
proof fn lemma_visit_consistent(
    finder: FinderView,
    reads: Map<Seq<Seq<char>>, ManifestRead>,
    repository: Seq<Seq<char>>,
    visit: Visit,
)
    requires
        is_consistent(finder, reads, repository),
        is_inside(repository, visit.path, visit.relative_path),
        finder::visit_fault(finder, visit.path, visit.relative_path, reads) is None,
    ensures
        is_consistent(
            finder::visited(finder, visit.path, visit.relative_path, reads),
            reads,
            repository,
        ),
{
    let after = finder::visited(finder, visit.path, visit.relative_path, reads);
    let here = place(visit);
    if !finder::is_passed_over(finder, here) {
        let nodes = finder::found_at(reads, here)->Manifest_0;
        assert(finder::found_at(reads, here) == Found::Manifest(nodes));
        let relative = paths::components(visit.relative_path);
        assert(here == repository + relative);
        assert(here.take(repository.len() as int) =~= repository);
        assert forall|at: Seq<Seq<char>>| #[trigger] after.versions.contains_key(at) implies {
            &&& is_root_at(reads, repository, at, after.versions[at].version)
            &&& paths::components(after.versions[at].root_path) == at
            &&& is_workspace_at(after, at)
        } by {
            if at != here {
                assert(finder.versions.contains_key(at));
                assert(is_workspace_at(finder, at));
            } else if finder.versions.contains_key(here) {
                assert(is_workspace_at(finder, here));
            }
        }
        assert(pending_are_members(after.pending, reads, repository)) by {
            assert forall|i: int, j: int| 0 <= i < j < after.pending.len() implies paths::components(
                (#[trigger] after.pending[i]).path,
            ) != paths::components((#[trigger] after.pending[j]).path) by {
                assert(after.pending[i] == finder.pending[i]);
                if j == finder.pending.len() {
                    assert(!finder::pending_places(finder.pending).contains(here));
                }
            }
            assert forall|i: int| 0 <= i < after.pending.len() implies {
                &&& is_member_at(reads, paths::components((#[trigger] after.pending[i]).path))
                &&& is_inside(repository, after.pending[i].path, after.pending[i].relative_path)
                &&& ancestors::is_manifest_place(paths::components(after.pending[i].path))
            } by {
                if i < finder.pending.len() {
                    assert(after.pending[i] == finder.pending[i]);
                }
            }
        }
        assert forall|at: Seq<Seq<char>>| #[trigger] after.projects.contains_key(
            at,
        ) implies finder::found_at(reads, at) is Manifest && !is_member_at(reads, at) by {
            if at != here {
                assert(finder.projects.contains_key(at));
            }
        }
    }
}

proof fn lemma_visits_consistent(
    visits: Seq<Visit>,
    reads: Map<Seq<Seq<char>>, ManifestRead>,
    repository: Seq<Seq<char>>,
    n: nat,
)
    requires
        n <= visits.len(),
        all_inside(repository, visits),
        visits_succeed(visits, reads),
    ensures
        is_consistent(after_visits(visits, reads, n), reads, repository),
    decreases n,
{
    if n > 0 {
        let visit = visits[n - 1];
        lemma_visits_consistent(visits, reads, repository, (n - 1) as nat);
        lemma_visit_consistent(
            after_visits(visits, reads, (n - 1) as nat),
            reads,
            repository,
            visit,
        );
    }
}

#[verifier::opaque]
spec fn is_seen(finder: FinderView, at: Seq<Seq<char>>) -> bool {
    finder::is_passed_over(finder, at)
}

#[verifier::opaque]
spec fn step(
    finder: FinderView,
    reads: Map<Seq<Seq<char>>, ManifestRead>,
    visit: Visit,
) -> FinderView {
    finder::visited(finder, visit.path, visit.relative_path, reads)
}

#[verifier::opaque]
spec fn succeeds(
    finder: FinderView,
    reads: Map<Seq<Seq<char>>, ManifestRead>,
    visit: Visit,
) -> bool {
    finder::visit_fault(finder, visit.path, visit.relative_path, reads) is None
}

proof fn lemma_seen_after(
    finder: FinderView,
    reads: Map<Seq<Seq<char>>, ManifestRead>,
    visit: Visit,
    at: Seq<Seq<char>>,
)
    requires
        is_seen(finder, at) || at == place(visit),
        succeeds(finder, reads, visit),
    ensures
        is_seen(step(finder, reads, visit), at),
{
    reveal(is_seen);
    reveal(step);
    reveal(succeeds);
    finder::visited_manifests_are_passed_over(
        finder,
        visit.path,
        visit.relative_path,
        reads,
        at,
    );
}

proof fn lemma_last_step(
    visits: Seq<Visit>,
    reads: Map<Seq<Seq<char>>, ManifestRead>,
    n: nat,
)
    requires
        0 < n <= visits.len(),
        visits_succeed(visits, reads),
    ensures
        after_visits(visits, reads, n) == step(
            after_visits(visits, reads, (n - 1) as nat),
            reads,
            visits[n - 1],
        ),
        succeeds(after_visits(visits, reads, (n - 1) as nat), reads, visits[n - 1]),
{
    reveal(step);
    reveal(succeeds);
}

proof fn lemma_visits_seen(
    visits: Seq<Visit>,
    reads: Map<Seq<Seq<char>>, ManifestRead>,
    states: spec_fn(nat) -> FinderView,
    n: nat,
    k: int,
)
    requires
        0 <= k < n <= visits.len(),
        forall|m: nat|
            0 < m <= visits.len() ==> #[trigger] states(m) == step(
                states((m - 1) as nat),
                reads,
                visits[m - 1],
            ) && succeeds(states((m - 1) as nat), reads, visits[m - 1]),
    ensures
        is_seen(states(n), place(visits[k])),
    decreases n,
{
    if k < n - 1 {
        lemma_visits_seen(visits, reads, states, (n - 1) as nat, k);
    }
    assert(states(n) == step(states((n - 1) as nat), reads, visits[n - 1]));
    lemma_seen_after(states((n - 1) as nat), reads, visits[n - 1], place(visits[k]));
}

/// A member that is visited is pending.
proof fn lemma_visited_member(
    visits: Seq<Visit>,
    reads: Map<Seq<Seq<char>>, ManifestRead>,
    repository: Seq<Seq<char>>,
    k: int,
) -> (i: int)
    requires
        0 <= k < visits.len(),
        all_inside(repository, visits),
        visits_succeed(visits, reads),
        is_member_at(reads, place(visits[k])),
        ancestors::is_manifest_place(place(visits[k])),
    ensures
        ({
            let all = after_visits(visits, reads, visits.len());
            &&& is_consistent(all, reads, repository)
            &&& 0 <= i < all.pending.len()
            &&& paths::components(all.pending[i].path) == place(visits[k])
        }),
{
    let all = after_visits(visits, reads, visits.len());
    let states = |m: nat| after_visits(visits, reads, m);
    lemma_visits_consistent(visits, reads, repository, visits.len());
    assert forall|m: nat| 0 < m <= visits.len() implies #[trigger] states(m) == step(
        states((m - 1) as nat),
        reads,
        visits[m - 1],
    ) && succeeds(states((m - 1) as nat), reads, visits[m - 1]) by {
        lemma_last_step(visits, reads, m);
    }
    lemma_visits_seen(visits, reads, states, visits.len(), k);
    lemma_seen_member(all, reads, place(visits[k]))
}

proof fn lemma_seen_member(
    finder: FinderView,
    reads: Map<Seq<Seq<char>>, ManifestRead>,
    at: Seq<Seq<char>>,
) -> (i: int)
    requires
        is_seen(finder, at),
        projects_are_settled(finder, reads),
        is_member_at(reads, at),
        ancestors::is_manifest_place(at),
    ensures
        0 <= i < finder.pending.len(),
        paths::components(finder.pending[i].path) == at,
{
    reveal(is_seen);
    assert(!finder.projects.contains_key(at));
    choose|i: int|
        0 <= i < finder.pending.len() && paths::components((#[trigger] finder.pending[i]).path)
            == at
}

/// Every place is that of a manifest that lets members inherit a version.
spec fn all_declare(
    places: Set<Seq<Seq<char>>>,
    reads: Map<Seq<Seq<char>>, ManifestRead>,
) -> bool {
    forall|at: Seq<Seq<char>>| #[trigger] places.contains(at) ==> declared(reads, at) is Some
}

/// No place is that of a manifest that lets members inherit a version.
spec fn none_declares(
    places: Set<Seq<Seq<char>>>,
    reads: Map<Seq<Seq<char>>, ManifestRead>,
) -> bool {
    forall|at: Seq<Seq<char>>| #[trigger] places.contains(at) ==> declared(reads, at) is None
}

/// A search ends at the first manifest that lets members inherit a version: it
/// finds that one, or knew it.
proof fn lemma_search_finds(
    known: Set<Seq<Seq<char>>>,
    rejected: Set<Seq<Seq<char>>>,
    reads: Map<Seq<Seq<char>>, ManifestRead>,
    list: Seq<Seq<Seq<char>>>,
    i: int,
)
    requires
        0 <= i,
        all_declare(known, reads),
        none_declares(rejected, reads),
        finder::search(known, rejected, reads, list, i, true).fault is None,
    ensures
        ({
            let outcome = finder::search(known, rejected, reads, list, i, true);
            let first = first_declaring(reads, list, i);
            &&& none_declares(outcome.rejected, reads)
            &&& match outcome.root {
                Some((at, nodes)) => first == Some(at) && finder::found_at(reads, at)
                    == Found::Manifest(nodes) && !known.contains(at),
                None => first is Some ==> known.contains(first->0),
            }
        }),
    decreases list.len() - i,
{
    if i < list.len() && !known.contains(list[i]) {
        if rejected.contains(list[i]) {
            lemma_search_finds(known, rejected, reads, list, i + 1);
        } else if declared(reads, list[i]) is None {
            lemma_search_finds(known, rejected.insert(list[i]), reads, list, i + 1);
        }
    }
}

/// A first place that declares is one of the places.
proof fn lemma_first_declaring(
    reads: Map<Seq<Seq<char>>, ManifestRead>,
    list: Seq<Seq<Seq<char>>>,
    i: int,
) -> (j: int)
    requires
        0 <= i,
    ensures
        match first_declaring(reads, list, i) {
            Some(at) => i <= j < list.len() && list[j] == at && declared(reads, at) is Some
                && forall|k: int| i <= k < j ==> declared(reads, #[trigger] list[k]) is None,
            None => forall|k: int|
                i <= k < list.len() ==> declared(reads, #[trigger] list[k]) is None,
        },
    decreases list.len() - i,
{
    if i >= list.len() || declared(reads, list[i]) is Some {
        i
    } else {
        lemma_first_declaring(reads, list, i + 1)
    }
}

/// The deepest root above a pending package.
spec fn root_of(
    reads: Map<Seq<Seq<char>>, ManifestRead>,
    package: PendingView,
) -> Option<Seq<Seq<char>>> {
    deepest_root(
        reads,
        paths::components(package.path),
        paths::components(package.relative_path).len(),
    )
}

/// The searches for the roots of the first `n` pending packages know or find
/// the deepest root of each, and find each root once.
spec fn finds_roots(
    known: Set<Seq<Seq<char>>>,
    pending: Seq<PendingView>,
    reads: Map<Seq<Seq<char>>, ManifestRead>,
    repository: Seq<Seq<char>>,
    found: Discovery,
    n: nat,
) -> bool {
    &&& none_declares(found.rejected, reads)
    &&& forall|k: int|
        0 <= k < found.roots.len() ==> is_found_root(
            known,
            reads,
            repository,
            #[trigger] found.roots[k],
        )
    &&& forall|i: int|
        0 <= i < n && root_of(reads, #[trigger] pending[i]) is Some ==> known.union(
            finder::root_places(found.roots),
        ).contains(root_of(reads, pending[i])->0)
}

spec fn is_found_root(
    known: Set<Seq<Seq<char>>>,
    reads: Map<Seq<Seq<char>>, ManifestRead>,
    repository: Seq<Seq<char>>,
    root: FoundRoot,
) -> bool {
    &&& !known.contains(root.at)
    &&& finder::found_at(reads, root.at) == Found::Manifest(root.nodes)
    &&& is_root_at(
        reads,
        repository,
        root.at,
        manifest::workspace_package_text(root.nodes, "version"@)->0,
    )
    &&& paths::components(paths::rendered(root.at)) == root.at
}

/// The manifest above a member is one in the repository.
proof fn lemma_outer_inside(
    repository: Seq<Seq<char>>,
    path: Seq<char>,
    relative_path: Seq<char>,
    j: int,
)
    requires
        is_inside(repository, path, relative_path),
        0 <= j < ancestors::outer_manifests(
            paths::components(path),
            paths::components(relative_path).len(),
        ).len(),
    ensures
        ({
            let at = ancestors::outer_manifests(
                paths::components(path),
                paths::components(relative_path).len(),
            )[j];
            &&& ancestors::is_manifest_place(at)
            &&& repository.len() < at.len()
            &&& at.take(repository.len() as int) == repository
            &&& ancestors::is_root_of(at, paths::components(path))
            &&& at.len() == paths::components(path).len() - 1 - j
            &&& paths::components(paths::rendered(at)) == at
        }),
{
    let parts = paths::components(path);
    let steps = paths::components(relative_path).len();
    let at = ancestors::outer_manifest(parts, j);
    assert(ancestors::root_length(parts, steps) == repository.len());
    assert(at.drop_last() =~= parts.take(parts.len() - 2 - j));
    assert(at.take(repository.len() as int) =~= repository);
    assert(parts.take(at.drop_last().len() as int) =~= at.drop_last());
    ancestors::lemma_outer_rendered(path, j);
    ancestors::lemma_manifest_is_no_root(at);
    if at.len() >= 2 {
        assert(at[0] == parts[0]);
    }
}

proof fn lemma_discovery_finds(
    known: Set<Seq<Seq<char>>>,
    pending: Seq<PendingView>,
    reads: Map<Seq<Seq<char>>, ManifestRead>,
    repository: Seq<Seq<char>>,
    n: nat,
)
    requires
        n <= pending.len(),
        all_declare(known, reads),
        pending_are_members(pending, reads, repository),
        finder::discovered(known, pending, reads, n).fault is None,
    ensures
        finds_roots(
            known,
            pending,
            reads,
            repository,
            finder::discovered(known, pending, reads, n),
            n,
        ),
    decreases n,
{
    if n > 0 {
        let earlier = finder::discovered(known, pending, reads, (n - 1) as nat);
        let found = finder::discovered(known, pending, reads, n);
        lemma_discovery_finds(known, pending, reads, repository, (n - 1) as nat);
        let package = pending[n - 1];
        let places = known.union(finder::root_places(earlier.roots));
        let list = ancestors::outer_manifests(
            paths::components(package.path),
            paths::components(package.relative_path).len(),
        );
        assert(all_declare(places, reads)) by {
            assert forall|at: Seq<Seq<char>>| #[trigger] places.contains(at) implies declared(
                reads,
                at,
            ) is Some by {
                if !known.contains(at) {
                    let k = choose|k: int|
                        0 <= k < earlier.roots.len() && (#[trigger] earlier.roots[k]).at == at;
                    assert(is_found_root(known, reads, repository, earlier.roots[k]));
                }
            }
        }
        lemma_search_finds(places, earlier.rejected, reads, list, 0);
        let j = lemma_first_declaring(reads, list, 0);
        let outcome = finder::package_search(places, earlier.rejected, reads, package);
        if outcome.root is Some {
            lemma_outer_inside(repository, package.path, package.relative_path, j);
            finder::lemma_root_places_push(earlier.roots, found.roots.last());
            assert(found.roots =~= earlier.roots.push(found.roots.last()));
        }
        assert forall|k: int| 0 <= k < found.roots.len() implies is_found_root(
            known,
            reads,
            repository,
            #[trigger] found.roots[k],
        ) by {
            if k < earlier.roots.len() {
                assert(found.roots[k] == earlier.roots[k]);
            }
        }
        assert forall|i: int| 0 <= i < n && root_of(reads, #[trigger] pending[i]) is Some implies
            known.union(finder::root_places(found.roots)).contains(
            root_of(reads, pending[i])->0,
        ) by {
            if i < n - 1 {
                assert(places.contains(root_of(reads, pending[i])->0));
            }
        }
    }
}

/// A root in the repository whose directory holds a member is one of the
/// manifests above the member.
proof fn lemma_root_above(
    reads: Map<Seq<Seq<char>>, ManifestRead>,
    repository: Seq<Seq<char>>,
    path: Seq<char>,
    relative_path: Seq<char>,
    at: Seq<Seq<char>>,
) -> (j: int)
    requires
        is_file_tree(reads),
        is_inside(repository, path, relative_path),
        is_member_at(reads, paths::components(path)),
        ancestors::is_manifest_place(paths::components(path)),
        declared(reads, at) is Some,
        is_root_at(reads, repository, at, declared(reads, at)->0),
        ancestors::is_root_of(at, paths::components(path)),
    ensures
        ({
            let list = ancestors::outer_manifests(
                paths::components(path),
                paths::components(relative_path).len(),
            );
            &&& 0 <= j < list.len()
            &&& list[j] == at
        }),
{
    let parts = paths::components(path);
    let steps = paths::components(relative_path).len();
    assert(finder::found_at(reads, at) is Manifest);
    assert(finder::found_at(reads, parts) is Manifest);
    if at.len() - 1 == parts.len() {
        assert(parts.take(at.drop_last().len() as int) =~= parts);
        assert(at.drop_last() == parts);
    }
    if at.len() == parts.len() {
        assert(at =~= at.drop_last().push(at.last()));
        assert(parts =~= parts.take(parts.len() - 1).push(parts.last()));
        assert(at == parts);
        lemma_declares_in_workspace(finder::found_at(reads, parts)->Manifest_0);
    }
    let j = parts.len() - 1 - at.len();
    assert(ancestors::root_length(parts, steps) == repository.len());
    assert(ancestors::outer_manifest(parts, j) =~= at) by {
        assert(at =~= at.drop_last().push(at.last()));
        assert(at.drop_last() == parts.take(at.len() - 1));
    }
    j
}

/// Among roots in line with the manifests, the nearest to a member is the
/// deepest above it.
proof fn lemma_nearest_is_deepest(
    finder: FinderView,
    reads: Map<Seq<Seq<char>>, ManifestRead>,
    repository: Seq<Seq<char>>,
    package: PendingView,
)
    requires
        is_file_tree(reads),
        versions_are_declared(finder, reads, repository),
        is_member_at(reads, paths::components(package.path)),
        is_inside(repository, package.path, package.relative_path),
        ancestors::is_manifest_place(paths::components(package.path)),
        root_of(reads, package) is Some ==> finder.versions.contains_key(
            root_of(reads, package)->0,
        ),
    ensures
        finder::nearest_place(finder.versions.dom(), paths::components(package.path)) == root_of(
            reads,
            package,
        ),
{
    let member = paths::components(package.path);
    let list = ancestors::outer_manifests(
        member,
        paths::components(package.relative_path).len(),
    );
    let known = finder.versions.dom();
    let first = lemma_first_declaring(reads, list, 0);
    assert forall|at: Seq<Seq<char>>| #[trigger]
        known.contains(at) && ancestors::is_root_of(at, member) implies root_of(reads, package) is Some
        && at.len() <= root_of(reads, package)->0.len() by {
        assert(finder.versions.contains_key(at));
        let j = lemma_root_above(reads, repository, package.path, package.relative_path, at);
        lemma_outer_inside(repository, package.path, package.relative_path, j);
        assert(declared(reads, list[j]) is Some);
        lemma_outer_inside(repository, package.path, package.relative_path, first);
    }
    match root_of(reads, package) {
        Some(root) => {
            lemma_outer_inside(repository, package.path, package.relative_path, first);
            assert(finder::is_nearest(known, member, root));
            assert(finder::are_manifests(known)) by {
                assert forall|at: Seq<Seq<char>>| #[trigger] known.contains(
                    at,
                ) implies ancestors::is_manifest_place(at) by {
                    assert(finder.versions.contains_key(at));
                }
            }
            finder::lemma_nearest_place(known, member, root);
        },
        None => {
            if finder::nearest_place(known, member) is Some {
                let at = choose|at: Seq<Seq<char>>| #[trigger]
                    finder::is_nearest(known, member, at);
                assert(known.contains(at));
            }
        },
    }
}

/// Adding the roots that were found keeps what a finder knows in line with the
/// manifests.
proof fn lemma_found_consistent(
    finder: FinderView,
    reads: Map<Seq<Seq<char>>, ManifestRead>,
    repository: Seq<Seq<char>>,
    roots: Seq<FoundRoot>,
    known: Set<Seq<Seq<char>>>,
    n: nat,
)
    requires
        n <= roots.len(),
        versions_are_declared(finder, reads, repository),
        forall|k: int|
            0 <= k < roots.len() ==> is_found_root(known, reads, repository, #[trigger] roots[k]),
    ensures
        versions_are_declared(finder::with_found_roots(finder, roots, n), reads, repository),
        forall|at: Seq<Seq<char>>| #[trigger]
            finder.versions.contains_key(at) ==> finder::with_found_roots(
                finder,
                roots,
                n,
            ).versions.contains_key(at),
        forall|k: int|
            0 <= k < n ==> finder::with_found_roots(finder, roots, n).versions.contains_key(
                (#[trigger] roots[k]).at,
            ),
    decreases n,
{
    if n > 0 {
        lemma_found_consistent(finder, reads, repository, roots, known, (n - 1) as nat);
        let earlier = finder::with_found_roots(finder, roots, (n - 1) as nat);
        let after = finder::with_found_roots(finder, roots, n);
        let root = roots[n - 1];
        assert(is_found_root(known, reads, repository, root));
        assert forall|at: Seq<Seq<char>>| #[trigger] after.versions.contains_key(at) implies {
            &&& is_root_at(reads, repository, at, after.versions[at].version)
            &&& paths::components(after.versions[at].root_path) == at
            &&& is_workspace_at(after, at)
        } by {
            if at != root.at {
                assert(earlier.versions.contains_key(at));
                assert(is_workspace_at(earlier, at));
            }
        }
        assert forall|k: int| 0 <= k < n implies after.versions.contains_key(
            (#[trigger] roots[k]).at,
        ) by {
            if k < n - 1 {
                assert(earlier.versions.contains_key(roots[k].at));
            }
        }
    }
}

/// The package has the version of the root at a place, or none.
pub open spec fn inherits_from(
    package: PackageView,
    reads: Map<Seq<Seq<char>>, ManifestRead>,
    root: Option<Seq<Seq<char>>>,
) -> bool {
    match root {
        Some(at) => {
            &&& declared(reads, at) is Some
            &&& package.version == declared(reads, at)
            &&& package.workspace_root is Some
            &&& paths::components(package.workspace_root->0) == at
        },
        None => package.version is None && package.workspace_root is None,
    }
}

/// The pending package has become a project with the version of its deepest
/// root.
spec fn is_resolved(
    finder: FinderView,
    reads: Map<Seq<Seq<char>>, ManifestRead>,
    package: PendingView,
) -> bool {
    let at = paths::components(package.path);
    &&& finder.projects.contains_key(at)
    &&& finder.projects[at] matches ProjectKind::Package(view) && inherits_from(
        view,
        reads,
        root_of(reads, package),
    )
}

/// Resolving one more package leaves the others, and the workspaces, what they
/// are.
proof fn lemma_resolve_one(
    finder: FinderView,
    package: PendingView,
    root: Option<Seq<Seq<char>>>,
)
    ensures
        ({
            let after = finder::with_workspace_member(finder, package, root);
            let here = paths::components(package.path);
            &&& after.versions == finder.versions
            &&& forall|at: Seq<Seq<char>>|
                at != here && #[trigger] is_workspace_at(finder, at) ==> is_workspace_at(after, at)
            &&& forall|at: Seq<Seq<char>>|
                at != here && #[trigger] finder.projects.contains_key(at)
                    && finder.projects[at] is Package ==> after.projects.contains_key(at)
                    && after.projects[at] == finder.projects[at]
            &&& after.projects.contains_key(here)
            &&& after.projects[here] matches ProjectKind::Package(view) && view.version == (
            match root {
                Some(at) => Some(finder.versions[at].version),
                None => None,
            }) && view.workspace_root == (match root {
                Some(at) => Some(finder.versions[at].root_path),
                None => None,
            })
        }),
{
}

proof fn lemma_all_resolved(
    finder: FinderView,
    reads: Map<Seq<Seq<char>>, ManifestRead>,
    repository: Seq<Seq<char>>,
    pending: Seq<PendingView>,
    n: nat,
)
    requires
        n <= pending.len(),
        is_file_tree(reads),
        versions_are_declared(finder, reads, repository),
        pending_are_members(pending, reads, repository),
        forall|i: int|
            0 <= i < pending.len() && root_of(reads, #[trigger] pending[i]) is Some
                ==> finder.versions.contains_key(root_of(reads, pending[i])->0),
    ensures
        finder::with_resolved(finder, pending, n).versions == finder.versions,
        versions_are_declared(finder::with_resolved(finder, pending, n), reads, repository),
        forall|i: int|
            0 <= i < n ==> is_resolved(
                finder::with_resolved(finder, pending, n),
                reads,
                #[trigger] pending[i],
            ),
    decreases n,
{
    if n > 0 {
        lemma_all_resolved(finder, reads, repository, pending, (n - 1) as nat);
        let earlier = finder::with_resolved(finder, pending, (n - 1) as nat);
        let after = finder::with_resolved(finder, pending, n);
        let package = pending[n - 1];
        let here = paths::components(package.path);
        let root = finder::nearest_place(earlier.versions.dom(), here);
        lemma_nearest_is_deepest(earlier, reads, repository, package);
        lemma_resolve_one(earlier, package, root);
        assert(after == finder::with_workspace_member(earlier, package, root));
        assert(is_resolved(after, reads, package)) by {
            if root is Some {
                assert(earlier.versions.contains_key(root->0));
            }
        }
        assert forall|at: Seq<Seq<char>>| #[trigger] after.versions.contains_key(at) implies {
            &&& is_root_at(reads, repository, at, after.versions[at].version)
            &&& paths::components(after.versions[at].root_path) == at
            &&& is_workspace_at(after, at)
        } by {
            assert(earlier.versions.contains_key(at));
            assert(is_workspace_at(earlier, at));
            if at == here {
                lemma_declares_in_workspace(finder::found_at(reads, at)->Manifest_0);
            }
        }
        assert forall|i: int| 0 <= i < n implies is_resolved(
            after,
            reads,
            #[trigger] pending[i],
        ) by {
            if i < n - 1 {
                assert(is_resolved(earlier, reads, pending[i]));
                assert(paths::components(pending[i].path) != here);
            }
        }
    }
}

/// A member that inherits its version gets the one that the deepest manifest
/// above it, inside its repository, lets members inherit, and names that
/// manifest as its root, in whatever order the manifests were visited. The root
/// is one workspace project, whether it was visited or not.
pub proof fn members_inherit_from_the_deepest_root(
    visits: Seq<Visit>,
    reads: Map<Seq<Seq<char>>, ManifestRead>,
    repository: Seq<Seq<char>>,
    k: int,
)
    requires
        is_file_tree(reads),
        all_inside(repository, visits),
        succeed(visits, reads),
        0 <= k < visits.len(),
        ancestors::is_manifest_place(place(visits[k])),
        is_member_at(reads, place(visits[k])),
    ensures
        ({
            let projects = finder::finalized(
                after_visits(visits, reads, visits.len()),
                reads,
            ).projects;
            let at = place(visits[k]);
            let root = deepest_root(
                reads,
                at,
                paths::components(visits[k].relative_path).len(),
            );
            &&& projects.contains_key(at)
            &&& projects[at] matches ProjectKind::Package(package) && inherits_from(
                package,
                reads,
                root,
            )
            &&& root is Some ==> projects.contains_key(root->0) && match projects[root->0] {
                ProjectKind::Workspace(workspace) => paths::components(workspace.path) == root->0,
                ProjectKind::Package(_) => false,
            }
        }),
{
    let all = after_visits(visits, reads, visits.len());
    let i = lemma_visited_member(visits, reads, repository, k);
    lemma_finalized_members(all, reads, repository);
    let package = all.pending[i];
    let here = paths::components(package.path);
    assert(is_resolved(finder::finalized(all, reads), reads, package));
    assert(here == repository + paths::components(package.relative_path));
    assert(here == repository + paths::components(visits[k].relative_path));
}

/// Finalizing gives every pending package the version of its deepest root.
proof fn lemma_finalized_members(
    finder: FinderView,
    reads: Map<Seq<Seq<char>>, ManifestRead>,
    repository: Seq<Seq<char>>,
)
    requires
        is_file_tree(reads),
        is_consistent(finder, reads, repository),
        finder::discovered(
            finder.versions.dom(),
            finder.pending,
            reads,
            finder.pending.len(),
        ).fault is None,
    ensures
        forall|i: int|
            0 <= i < finder.pending.len() ==> {
                let after = finder::finalized(finder, reads);
                let root = root_of(reads, #[trigger] finder.pending[i]);
                &&& is_resolved(after, reads, finder.pending[i])
                &&& root is Some ==> is_workspace_at(after, root->0)
            },
{
    let known = finder.versions.dom();
    let pending = finder.pending;
    let found = finder::discovered(known, pending, reads, pending.len());
    let emptied = FinderView { pending: Seq::empty(), ..finder };
    let rooted = finder::with_found_roots(emptied, found.roots, found.roots.len());
    let after = finder::finalized(finder, reads);
    assert(all_declare(known, reads)) by {
        assert forall|at: Seq<Seq<char>>| #[trigger] known.contains(at) implies declared(
            reads,
            at,
        ) is Some by {
            assert(finder.versions.contains_key(at));
        }
    }
    lemma_discovery_finds(known, pending, reads, repository, pending.len());
    assert(versions_are_declared(emptied, reads, repository)) by {
        assert forall|at: Seq<Seq<char>>| #[trigger] emptied.versions.contains_key(at) implies {
            &&& is_root_at(reads, repository, at, emptied.versions[at].version)
            &&& paths::components(emptied.versions[at].root_path) == at
            &&& is_workspace_at(emptied, at)
        } by {
            assert(finder.versions.contains_key(at));
            assert(is_workspace_at(finder, at));
        }
    }
    lemma_found_consistent(emptied, reads, repository, found.roots, known, found.roots.len());
    assert forall|i: int|
        0 <= i < pending.len() && root_of(
            reads,
            #[trigger] pending[i],
        ) is Some implies rooted.versions.contains_key(root_of(reads, pending[i])->0) by {
        let root = root_of(reads, pending[i])->0;
        assert(known.union(finder::root_places(found.roots)).contains(root));
        if known.contains(root) {
            assert(emptied.versions.contains_key(root));
        } else {
            let k = choose|k: int|
                0 <= k < found.roots.len() && (#[trigger] found.roots[k]).at == root;
            assert(rooted.versions.contains_key(found.roots[k].at));
        }
    }
    lemma_all_resolved(rooted, reads, repository, pending, pending.len());
    assert(after == finder::with_resolved(rooted, pending, pending.len()));
    assert forall|i: int| 0 <= i < pending.len() implies {
        let root = root_of(reads, #[trigger] pending[i]);
        &&& is_resolved(after, reads, pending[i])
        &&& root is Some ==> is_workspace_at(after, root->0)
    } by {
        if root_of(reads, pending[i]) is Some {
            assert(after.versions.contains_key(root_of(reads, pending[i])->0));
        }
    }
}

/// Which version a member inherits, and from which root, does not depend on the
/// order of the visits, nor on what else was visited.
pub proof fn visit_order_does_not_matter(
    visits: Seq<Visit>,
    others: Seq<Visit>,
    reads: Map<Seq<Seq<char>>, ManifestRead>,
    repository: Seq<Seq<char>>,
    k: int,
    l: int,
)
    requires
        is_file_tree(reads),
        all_inside(repository, visits),
        all_inside(repository, others),
        succeed(visits, reads),
        succeed(others, reads),
        0 <= k < visits.len(),
        0 <= l < others.len(),
        place(visits[k]) == place(others[l]),
        ancestors::is_manifest_place(place(visits[k])),
        is_member_at(reads, place(visits[k])),
    ensures
        ({
            let at = place(visits[k]);
            let one = finder::finalized(
                after_visits(visits, reads, visits.len()),
                reads,
            ).projects[at];
            let other = finder::finalized(
                after_visits(others, reads, others.len()),
                reads,
            ).projects[at];
            match (one, other) {
                (ProjectKind::Package(left), ProjectKind::Package(right)) => {
                    &&& left.version == right.version
                    &&& left.workspace_root is Some == right.workspace_root is Some
                    &&& left.workspace_root is Some ==> paths::components(left.workspace_root->0)
                        == paths::components(right.workspace_root->0)
                },
                _ => false,
            }
        }),
{
    members_inherit_from_the_deepest_root(visits, reads, repository, k);
    members_inherit_from_the_deepest_root(others, reads, repository, l);
    let at = place(visits[k]);
    assert(at == repository + paths::components(visits[k].relative_path));
    assert(at == repository + paths::components(others[l].relative_path));
    assert(paths::components(visits[k].relative_path).len() == paths::components(
        others[l].relative_path,
    ).len());
}

} // verus!
