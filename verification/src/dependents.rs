//! Who is updated along with an updated project.

use crate::apply_reverse_dependencies;
use crate::apply_reverse_dependencies::ReverseDependencyError;
use crate::paths;
use crate::project::ProjectView;
use crate::project_names;
use crate::text;
use crate::update_map::{EntryView, LogView};
use crate::update_type::UpdateType;
use vstd::prelude::*;
use vstd::string::*;

verus! {

/// A name with one carrier is unique.
proof fn lemma_one_carrier(projects: Seq<ProjectView>, j: int, name: Seq<char>)
    requires
        0 <= j < projects.len(),
        projects[j].name == Some(name),
        forall|k: int|
            0 <= k < projects.len() && k != j ==> (#[trigger] projects[k]).name != Some(name),
    ensures
        project_names::is_unique(projects, name),
{
    assert(project_names::carries(projects, j, name));
    assert forall|k: int| #[trigger] project_names::carries(projects, k, name) implies k == j by {}
}

/// The one carrier of a unique name.
proof fn lemma_carrier_of(projects: Seq<ProjectView>, name: Seq<char>) -> (j: int)
    requires
        project_names::is_unique(projects, name),
    ensures
        0 <= j < projects.len(),
        projects[j].name == Some(name),
        forall|k: int|
            0 <= k < projects.len() && k != j ==> (#[trigger] projects[k]).name != Some(name),
{
    let j = choose|j: int| #[trigger]
        project_names::carries(projects, j, name) && forall|k: int| #[trigger]
            project_names::carries(projects, k, name) ==> k == j;
    assert forall|k: int| 0 <= k < projects.len() && k != j implies (#[trigger] projects[k]).name
        != Some(name) by {
        if projects[k].name == Some(name) {
            assert(project_names::carries(projects, k, name));
        }
    }
    j
}

/// A project that depends on a scheduled one is scheduled, whatever else holds
/// of the two: the scheduled one is the only project of the name that the other
/// lists among its dependencies, and no later project lies at its place.
pub proof fn dependents_of_scheduled_projects_are_scheduled(
    projects: Seq<ProjectView>,
    root: Seq<char>,
    before: Map<Seq<Seq<char>>, EntryView>,
    after: Map<Seq<Seq<char>>, EntryView>,
    i: int,
    j: int,
    name: Seq<char>,
)
    requires
        apply_reverse_dependencies::is_outcome(
            projects,
            root,
            before,
            after,
            Ok::<(), ReverseDependencyError>(()),
        ),
        0 <= i < projects.len(),
        0 <= j < projects.len(),
        projects[i].dependencies.contains(name),
        projects[j].name == Some(name),
        forall|k: int|
            0 <= k < projects.len() && k != j ==> (#[trigger] projects[k]).name != Some(name),
        before.contains_key(
            paths::components(projects[j].path).skip(paths::components(root).len() as int),
        ),
        forall|k: int|
            j < k < projects.len() ==> paths::components((#[trigger] projects[k]).path).skip(
                paths::components(root).len() as int,
            ) != paths::components(projects[j].path).skip(paths::components(root).len() as int),
    ensures
        after.contains_key(
            paths::components(projects[i].path).skip(paths::components(root).len() as int),
        ),
{
    let dom = before.dom();
    assert(projects[i].dependencies.contains(name));
    assert(apply_reverse_dependencies::has_dependencies(projects));
    let queue = choose|queue: Seq<Seq<char>>| #[trigger]
        apply_reverse_dependencies::is_expansion(projects, root, dom, dom, queue)
            && apply_reverse_dependencies::is_expanded(projects, root, queue, before, after);
    lemma_one_carrier(projects, j, name);
    lemma_seed_in_queue(projects, root, dom, dom, queue, j, name);
    lemma_hit_is_scheduled(projects, root, queue, before, after, i, name);
}

proof fn lemma_seed_in_queue(
    projects: Seq<ProjectView>,
    root: Seq<char>,
    scheduled: Set<Seq<Seq<char>>>,
    seeds: Set<Seq<Seq<char>>>,
    queue: Seq<Seq<char>>,
    j: int,
    name: Seq<char>,
)
    requires
        apply_reverse_dependencies::is_expansion(projects, root, scheduled, seeds, queue),
        0 <= j < projects.len(),
        projects[j].name == Some(name),
        project_names::is_unique(projects, name),
        scheduled.contains(
            paths::components(projects[j].path).skip(paths::components(root).len() as int),
        ),
        seeds.contains(
            paths::components(projects[j].path).skip(paths::components(root).len() as int),
        ),
        forall|k: int|
            j < k < projects.len() ==> paths::components((#[trigger] projects[k]).path).skip(
                paths::components(root).len() as int,
            ) != paths::components(projects[j].path).skip(paths::components(root).len() as int),
    ensures
        queue.contains(name),
{
    assert(apply_reverse_dependencies::has_own_name(projects, j));
    assert forall|k: int|
        j < k && #[trigger] apply_reverse_dependencies::has_own_name(
            projects,
            k,
        ) implies apply_reverse_dependencies::place(projects[k], root)
        != apply_reverse_dependencies::place(projects[j], root) by {}
    assert(apply_reverse_dependencies::is_seed(projects, root, scheduled, seeds, j));
    assert(apply_reverse_dependencies::is_seed_name(projects, root, scheduled, seeds, name));
}

proof fn lemma_hit_is_scheduled(
    projects: Seq<ProjectView>,
    root: Seq<char>,
    queue: Seq<Seq<char>>,
    before: Map<Seq<Seq<char>>, EntryView>,
    after: Map<Seq<Seq<char>>, EntryView>,
    i: int,
    name: Seq<char>,
)
    requires
        apply_reverse_dependencies::is_expanded(projects, root, queue, before, after),
        0 <= i < projects.len(),
        projects[i].dependencies.contains(name),
        project_names::is_unique(projects, name),
        queue.contains(name),
    ensures
        ({
            let at = paths::components(projects[i].path).skip(
                paths::components(root).len() as int,
            );
            &&& apply_reverse_dependencies::is_hit(
                projects,
                root,
                queue,
                at,
                i,
                queue.index_of(name),
            )
            &&& apply_reverse_dependencies::is_reached(projects, root, queue, at)
            &&& after.contains_key(at)
        }),
{
    let at = paths::components(projects[i].path).skip(paths::components(root).len() as int);
    assert(apply_reverse_dependencies::is_hit(
        projects,
        root,
        queue,
        at,
        i,
        queue.index_of(name),
    ));
    assert(apply_reverse_dependencies::is_reached(projects, root, queue, at));
}

/// What a project passes on once it is reached, where it is alone at its place.
proof fn lemma_passed_on(
    projects: Seq<ProjectView>,
    root: Seq<char>,
    scheduled: Set<Seq<Seq<char>>>,
    seeds: Set<Seq<Seq<char>>>,
    queue: Seq<Seq<char>>,
    j: int,
    name: Seq<char>,
)
    requires
        apply_reverse_dependencies::is_expansion(projects, root, scheduled, seeds, queue),
        0 <= j < projects.len(),
        projects[j].name == Some(name) || (projects[j].name is None && name == "unknown"@),
        project_names::is_unique(projects, name),
        !seeds.contains(
            paths::components(projects[j].path).skip(paths::components(root).len() as int),
        ),
        apply_reverse_dependencies::is_reached(
            projects,
            root,
            queue,
            paths::components(projects[j].path).skip(paths::components(root).len() as int),
        ),
        forall|k: int|
            0 <= k < projects.len() && k != j ==> paths::components(
                (#[trigger] projects[k]).path,
            ).skip(paths::components(root).len() as int) != paths::components(
                projects[j].path,
            ).skip(paths::components(root).len() as int),
    ensures
        queue.contains(name),
{
    let at = paths::components(projects[j].path).skip(paths::components(root).len() as int);
    let (i2, m2) = choose|i2: int, m2: int| #[trigger]
        apply_reverse_dependencies::is_hit(projects, root, queue, at, i2, m2) && (
        apply_reverse_dependencies::passes_on(projects, i2) matches Some(w) ==> queue.contains(w));
    assert(projects[i2].path == projects[i2].path);
    assert(i2 == j);
    assert(apply_reverse_dependencies::passes_on(projects, j) == Some(name));
}

/// The expansion goes on: a project that depends on one that is scheduled
/// afterwards is scheduled too, where the latter is alone at its place. A project
/// without a name that was reached stands for the name `unknown`.
pub proof fn expansion_is_closed_under_dependents(
    projects: Seq<ProjectView>,
    root: Seq<char>,
    before: Map<Seq<Seq<char>>, EntryView>,
    after: Map<Seq<Seq<char>>, EntryView>,
    i: int,
    j: int,
    u: int,
    name: Seq<char>,
)
    requires
        apply_reverse_dependencies::is_outcome(
            projects,
            root,
            before,
            after,
            Ok::<(), ReverseDependencyError>(()),
        ),
        0 <= i < projects.len(),
        0 <= j < projects.len(),
        0 <= u < projects.len(),
        projects[i].dependencies.contains(name),
        projects[u].name == Some(name),
        forall|k: int|
            0 <= k < projects.len() && k != u ==> (#[trigger] projects[k]).name != Some(name),
        after.contains_key(
            paths::components(projects[j].path).skip(paths::components(root).len() as int),
        ),
        j == u || (projects[j].name is None && name == "unknown"@ && !before.contains_key(
            paths::components(projects[j].path).skip(paths::components(root).len() as int),
        )),
        forall|k: int|
            0 <= k < projects.len() && k != j ==> paths::components(
                (#[trigger] projects[k]).path,
            ).skip(paths::components(root).len() as int) != paths::components(
                projects[j].path,
            ).skip(paths::components(root).len() as int),
    ensures
        after.contains_key(
            paths::components(projects[i].path).skip(paths::components(root).len() as int),
        ),
{
    let at = paths::components(projects[j].path).skip(paths::components(root).len() as int);
    if before.contains_key(at) {
        assert forall|k: int| j < k < projects.len() implies paths::components(
            (#[trigger] projects[k]).path,
        ).skip(paths::components(root).len() as int) != at by {}
        dependents_of_scheduled_projects_are_scheduled(projects, root, before, after, i, j, name);
    } else {
        let dom = before.dom();
        assert(projects[i].dependencies.contains(name));
        assert(apply_reverse_dependencies::has_dependencies(projects));
        let queue = choose|queue: Seq<Seq<char>>| #[trigger]
            apply_reverse_dependencies::is_expansion(projects, root, dom, dom, queue)
                && apply_reverse_dependencies::is_expanded(projects, root, queue, before, after);
        lemma_one_carrier(projects, u, name);
        lemma_passed_on(projects, root, dom, dom, queue, j, name);
        lemma_hit_is_scheduled(projects, root, queue, before, after, i, name);
    }
}

/// Nothing else is scheduled: every set of places that holds the scheduled ones,
/// and with a project each that depends on it, holds all that is scheduled
/// afterwards.
pub proof fn expansion_schedules_nothing_else(
    projects: Seq<ProjectView>,
    root: Seq<char>,
    before: Map<Seq<Seq<char>>, EntryView>,
    after: Map<Seq<Seq<char>>, EntryView>,
    closed: Set<Seq<Seq<char>>>,
)
    requires
        apply_reverse_dependencies::is_outcome(
            projects,
            root,
            before,
            after,
            Ok::<(), ReverseDependencyError>(()),
        ),
        before.dom().subset_of(closed),
        forall|i: int, j: int, u: int, name: Seq<char>|
            0 <= i < projects.len() && 0 <= j < projects.len() && 0 <= u < projects.len()
                && #[trigger] projects[i].dependencies.contains(name) && (
            #[trigger] projects[u]).name == Some(name) && (forall|k: int|
                0 <= k < projects.len() && k != u ==> (#[trigger] projects[k]).name != Some(name))
                && (j == u || (projects[j].name is None && name == "unknown"@
                && !before.dom().contains(
                paths::components(projects[j].path).skip(paths::components(root).len() as int),
            ))) && closed.contains(
                paths::components((#[trigger] projects[j]).path).skip(
                    paths::components(root).len() as int,
                ),
            ) ==> closed.contains(
                paths::components(projects[i].path).skip(paths::components(root).len() as int),
            ),
    ensures
        after.dom().subset_of(closed),
{
    let dom = before.dom();
    if apply_reverse_dependencies::has_dependencies(projects) {
        let queue = choose|queue: Seq<Seq<char>>| #[trigger]
            apply_reverse_dependencies::is_expansion(projects, root, dom, dom, queue)
                && apply_reverse_dependencies::is_expanded(projects, root, queue, before, after);
        assert forall|at: Seq<Seq<char>>| #[trigger] after.dom().contains(at) implies closed.contains(
            at,
        ) by {
            assert(after.contains_key(at));
            if !before.contains_key(at) {
                let (i, m) = choose|i: int, m: int| #[trigger]
                    apply_reverse_dependencies::is_hit(projects, root, queue, at, i, m);
                lemma_hit_in_closed(projects, root, dom, queue, closed, i, m);
            }
        }
    }
}

proof fn lemma_hit_in_closed(
    projects: Seq<ProjectView>,
    root: Seq<char>,
    dom: Set<Seq<Seq<char>>>,
    queue: Seq<Seq<char>>,
    closed: Set<Seq<Seq<char>>>,
    i: int,
    m: int,
)
    requires
        apply_reverse_dependencies::is_expansion(projects, root, dom, dom, queue),
        dom.subset_of(closed),
        forall|i: int, j: int, u: int, name: Seq<char>|
            0 <= i < projects.len() && 0 <= j < projects.len() && 0 <= u < projects.len()
                && #[trigger] projects[i].dependencies.contains(name) && (
            #[trigger] projects[u]).name == Some(name) && (forall|k: int|
                0 <= k < projects.len() && k != u ==> (#[trigger] projects[k]).name != Some(name))
                && (j == u || (projects[j].name is None && name == "unknown"@
                && !dom.contains(
                paths::components(projects[j].path).skip(paths::components(root).len() as int),
            ))) && closed.contains(
                paths::components((#[trigger] projects[j]).path).skip(
                    paths::components(root).len() as int,
                ),
            ) ==> closed.contains(
                paths::components(projects[i].path).skip(paths::components(root).len() as int),
            ),
        0 <= m < queue.len(),
        apply_reverse_dependencies::triggers(projects, queue[m], i),
    ensures
        closed.contains(
            paths::components(projects[i].path).skip(paths::components(root).len() as int),
        ),
    decreases m,
{
    let name = queue[m];
    let u = lemma_carrier_of(projects, name);
    assert(projects[i].dependencies.contains(name) && projects[u].name == Some(name));
    if apply_reverse_dependencies::is_seed_name(projects, root, dom, dom, name) {
        let j = choose|j: int| #[trigger]
            apply_reverse_dependencies::is_seed(projects, root, dom, dom, j) && projects[j].name
                == Some(name);
        assert(dom.contains(apply_reverse_dependencies::place(projects[j], root)));
        assert(closed.contains(
            paths::components(projects[j].path).skip(paths::components(root).len() as int),
        ));
    } else {
        assert(apply_reverse_dependencies::is_passed_on(projects, root, dom, queue, m));
        let (j, n) = choose|j: int, n: int|
            0 <= n < m && #[trigger] apply_reverse_dependencies::is_hit(
                projects,
                root,
                queue,
                apply_reverse_dependencies::place(projects[j], root),
                j,
                n,
            ) && !dom.contains(apply_reverse_dependencies::place(projects[j], root))
                && apply_reverse_dependencies::passes_on(projects, j) == Some(queue[m]);
        lemma_hit_in_closed(projects, root, dom, queue, closed, j, n);
        assert(closed.contains(
            paths::components(projects[j].path).skip(paths::components(root).len() as int),
        ));
    }
}

/// Where only some of the scheduled places are seeds, a chain of dependencies
/// from one of them on is scheduled all the same: each project depends on the one
/// before it, which alone carries that name and is alone at its place, and the
/// first one is a scheduled seed.
pub proof fn chains_of_dependents_are_scheduled(
    projects: Seq<ProjectView>,
    root: Seq<char>,
    seeds: Set<Seq<Seq<char>>>,
    queue: Seq<Seq<char>>,
    before: Map<Seq<Seq<char>>, EntryView>,
    after: Map<Seq<Seq<char>>, EntryView>,
    chain: Seq<int>,
    names: Seq<Seq<char>>,
)
    requires
        apply_reverse_dependencies::is_expansion(projects, root, before.dom(), seeds, queue),
        apply_reverse_dependencies::is_expanded(projects, root, queue, before, after),
        chain.len() > 1,
        names.len() == chain.len(),
        forall|c: int| 0 <= c < chain.len() ==> 0 <= #[trigger] chain[c] < projects.len(),
        forall|c: int|
            0 <= c < chain.len() - 1 ==> projects[#[trigger] chain[c]].name == Some(names[c])
                && projects[chain[c + 1]].dependencies.contains(names[c]),
        forall|c: int, k: int|
            0 <= c < chain.len() - 1 && 0 <= k < projects.len() && k != #[trigger] chain[c] ==> (
            #[trigger] projects[k]).name != Some(names[c]) && paths::components(
                projects[k].path,
            ).skip(paths::components(root).len() as int) != paths::components(
                projects[chain[c]].path,
            ).skip(paths::components(root).len() as int),
        seeds.contains(
            paths::components(projects[chain[0]].path).skip(paths::components(root).len() as int),
        ),
        forall|c: int|
            0 <= c < chain.len() - 1 && seeds.contains(
                paths::components(projects[#[trigger] chain[c]].path).skip(
                    paths::components(root).len() as int,
                ),
            ) ==> before.contains_key(
                paths::components(projects[chain[c]].path).skip(
                    paths::components(root).len() as int,
                ),
            ),
    ensures
        queue.contains(names[chain.len() - 2]),
        after.contains_key(
            paths::components(projects[chain.last()].path).skip(
                paths::components(root).len() as int,
            ),
        ),
    decreases chain.len(),
{
    let last = chain.len() - 2;
    let j = chain[last];
    let i = chain[last + 1];
    let name = names[last];
    let at = paths::components(projects[j].path).skip(paths::components(root).len() as int);
    assert(projects[j].name == Some(name) && projects[i].dependencies.contains(name));
    assert forall|k: int| 0 <= k < projects.len() && k != j implies (#[trigger] projects[k]).name
        != Some(name) by {
        assert(k != chain[last]);
    }
    lemma_one_carrier(projects, j, name);
    assert forall|k: int| 0 <= k < projects.len() && k != j implies paths::components(
        (#[trigger] projects[k]).path,
    ).skip(paths::components(root).len() as int) != at by {
        assert(k != chain[last]);
    }
    if seeds.contains(at) {
        assert(j == chain[last]);
        lemma_seed_in_queue(projects, root, before.dom(), seeds, queue, j, name);
    } else {
        assert(last > 0);
        let shorter = chain.drop_last();
        let fewer = names.drop_last();
        assert forall|c: int| 0 <= c < shorter.len() - 1 implies projects[
            #[trigger] shorter[c]
        ].name == Some(fewer[c]) && projects[shorter[c + 1]].dependencies.contains(fewer[c]) by {
            assert(shorter[c] == chain[c]);
            assert(shorter[c + 1] == chain[c + 1]);
        }
        assert forall|c: int, k: int|
            0 <= c < shorter.len() - 1 && 0 <= k < projects.len() && k != #[trigger] shorter[c]
                implies (#[trigger] projects[k]).name != Some(fewer[c]) && paths::components(
            projects[k].path,
        ).skip(paths::components(root).len() as int) != paths::components(
            projects[shorter[c]].path,
        ).skip(paths::components(root).len() as int) by {
            assert(k != chain[c]);
        }
        assert forall|c: int|
            0 <= c < shorter.len() - 1 && seeds.contains(
                paths::components(projects[#[trigger] shorter[c]].path).skip(
                    paths::components(root).len() as int,
                ),
            ) implies before.contains_key(
            paths::components(projects[shorter[c]].path).skip(
                paths::components(root).len() as int,
            ),
        ) by {
            assert(shorter[c] == chain[c]);
        }
        chains_of_dependents_are_scheduled(
            projects,
            root,
            seeds,
            queue,
            before,
            after,
            shorter,
            fewer,
        );
        let q = queue.index_of(fewer[shorter.len() - 2]);
        let h = shorter.len() - 2;
        assert(projects[shorter[h]].name == Some(fewer[h]) && projects[shorter[h
            + 1]].dependencies.contains(fewer[h]));
        assert forall|k: int| 0 <= k < projects.len() && k != shorter[h] implies (
        #[trigger] projects[k]).name != Some(fewer[h]) by {}
        lemma_one_carrier(projects, shorter[h], fewer[h]);
        lemma_hit_is_scheduled(projects, root, queue, before, after, j, fewer[h]);
        lemma_passed_on(projects, root, before.dom(), seeds, queue, j, name);
    }
    lemma_hit_is_scheduled(projects, root, queue, before, after, i, name);
}

/// An update that was scheduled stays as it was. One that the expansion adds is a
/// patch with one changelog line, which names a dependency of a project at that
/// place that one other project carries.
pub proof fn generated_updates_name_a_dependency(
    projects: Seq<ProjectView>,
    root: Seq<char>,
    before: Map<Seq<Seq<char>>, EntryView>,
    after: Map<Seq<Seq<char>>, EntryView>,
    at: Seq<Seq<char>>,
)
    requires
        apply_reverse_dependencies::is_outcome(
            projects,
            root,
            before,
            after,
            Ok::<(), ReverseDependencyError>(()),
        ),
        after.contains_key(at) || before.contains_key(at),
    ensures
        after.contains_key(at),
        before.contains_key(at) ==> after[at] == before[at],
        !before.contains_key(at) ==> {
            &&& after[at].update_type == UpdateType::Patch
            &&& exists|i: int, j: int, name: Seq<char>|
                0 <= i < projects.len() && 0 <= j < projects.len()
                    && #[trigger] projects[i].dependencies.contains(name) && (
                #[trigger] projects[j]).name == Some(name) && paths::components(
                    projects[i].path,
                ).skip(paths::components(root).len() as int) == at && after[at].logs == seq![
                    LogView {
                        update_type: UpdateType::Patch,
                        note: "Auto-update: depends on '"@ + name
                            + "' via a local workspace dependency"@,
                    },
                ]
        },
{
    if apply_reverse_dependencies::has_dependencies(projects) {
        let dom = before.dom();
        let queue = choose|queue: Seq<Seq<char>>| #[trigger]
            apply_reverse_dependencies::is_expansion(projects, root, dom, dom, queue)
                && apply_reverse_dependencies::is_expanded(projects, root, queue, before, after);
        if !before.contains_key(at) {
            let (i, m) = choose|i: int, m: int| #[trigger]
                apply_reverse_dependencies::is_hit(projects, root, queue, at, i, m)
                    && apply_reverse_dependencies::is_noted(after[at], queue[m])
                    && apply_reverse_dependencies::is_smallest_hit(projects, root, queue, at, m);
            let j = lemma_carrier_of(projects, queue[m]);
            assert(projects[i].dependencies.contains(queue[m]));
            assert(projects[j].name == Some(queue[m]));
        }
    }
}

/// The changelog line of an update that the expansion adds names the first, in
/// the order of texts, of the dependencies that are scheduled themselves, where
/// no two projects lie at one place.
pub proof fn generated_updates_name_the_first_dependency(
    projects: Seq<ProjectView>,
    root: Seq<char>,
    before: Map<Seq<Seq<char>>, EntryView>,
    after: Map<Seq<Seq<char>>, EntryView>,
    i: int,
    j: int,
    name: Seq<char>,
    noted: Seq<char>,
)
    requires
        apply_reverse_dependencies::is_outcome(
            projects,
            root,
            before,
            after,
            Ok::<(), ReverseDependencyError>(()),
        ),
        forall|k: int, l: int|
            0 <= k < l < projects.len() ==> paths::components((#[trigger] projects[k]).path).skip(
                paths::components(root).len() as int,
            ) != paths::components((#[trigger] projects[l]).path).skip(
                paths::components(root).len() as int,
            ),
        0 <= i < projects.len(),
        0 <= j < projects.len(),
        projects[i].dependencies.contains(name),
        projects[j].name == Some(name),
        forall|k: int|
            0 <= k < projects.len() && k != j ==> (#[trigger] projects[k]).name != Some(name),
        after.contains_key(
            paths::components(projects[j].path).skip(paths::components(root).len() as int),
        ),
        !before.contains_key(
            paths::components(projects[i].path).skip(paths::components(root).len() as int),
        ),
        after[paths::components(projects[i].path).skip(
            paths::components(root).len() as int,
        )].logs[0].note == "Auto-update: depends on '"@ + noted
            + "' via a local workspace dependency"@,
    ensures
        noted == name || text::text_lt(noted, name),
{
    let dom = before.dom();
    let at = paths::components(projects[i].path).skip(paths::components(root).len() as int);
    let there = paths::components(projects[j].path).skip(paths::components(root).len() as int);
    assert(projects[i].dependencies.contains(name));
    assert(apply_reverse_dependencies::has_dependencies(projects));
    let queue = choose|queue: Seq<Seq<char>>| #[trigger]
        apply_reverse_dependencies::is_expansion(projects, root, dom, dom, queue)
            && apply_reverse_dependencies::is_expanded(projects, root, queue, before, after);
    lemma_one_carrier(projects, j, name);
    if before.contains_key(there) {
        lemma_seed_in_queue(projects, root, dom, dom, queue, j, name);
    } else {
        lemma_passed_on(projects, root, dom, dom, queue, j, name);
    }
    lemma_hit_is_scheduled(projects, root, queue, before, after, i, name);
    let (h, m) = choose|h: int, m: int| #[trigger]
        apply_reverse_dependencies::is_hit(projects, root, queue, at, h, m)
            && apply_reverse_dependencies::is_noted(after[at], queue[m])
            && apply_reverse_dependencies::is_smallest_hit(projects, root, queue, at, m);
    let head = "Auto-update: depends on '"@;
    let end = "' via a local workspace dependency"@;
    assert(head + noted + end == head + queue[m] + end);
    assert(noted.len() == queue[m].len()) by {
        assert((head + noted + end).len() == (head + queue[m] + end).len());
    }
    assert forall|c: int| 0 <= c < noted.len() implies noted[c] == queue[m][c] by {
        assert((head + noted + end)[head.len() + c] == noted[c]);
        assert((head + queue[m] + end)[head.len() + c] == queue[m][c]);
    }
    assert(noted =~= queue[m]);
}

/// An expansion is refused where projects share a name that a project depends
/// on, and else only where a project lies outside the repository.
pub proof fn expansion_is_refused_for_shared_names(
    projects: Seq<ProjectView>,
    root: Seq<char>,
    before: Map<Seq<Seq<char>>, EntryView>,
    after: Map<Seq<Seq<char>>, EntryView>,
    result: Result<(), ReverseDependencyError>,
)
    requires
        apply_reverse_dependencies::is_outcome(projects, root, before, after, result),
    ensures
        (exists|i: int, j: int, k: int, name: Seq<char>|
            0 <= i < projects.len() && 0 <= j < k < projects.len()
                && #[trigger] projects[i].dependencies.contains(name) && (
            #[trigger] projects[j]).name == Some(name) && (#[trigger] projects[k]).name == Some(
                name,
            )) <==> result matches Err(ReverseDependencyError::Ambiguous { .. }),
        result is Err ==> after == before,
        (forall|i: int|
            0 <= i < projects.len() ==> (#[trigger] paths::components(projects[i].path)).take(
                paths::components(root).len() as int,
            ) == paths::components(root) && paths::components(root).len() <= paths::components(
                projects[i].path,
            ).len()) ==> !(result matches Err(ReverseDependencyError::OutsideRepository { .. })),
{
    reveal(project_names::is_shared);
    if exists|i: int, j: int, k: int, name: Seq<char>|
        0 <= i < projects.len() && 0 <= j < k < projects.len()
            && #[trigger] projects[i].dependencies.contains(name) && (#[trigger] projects[j]).name
            == Some(name) && (#[trigger] projects[k]).name == Some(name) {
        let (i, j, k, name) = choose|i: int, j: int, k: int, name: Seq<char>|
            0 <= i < projects.len() && 0 <= j < k < projects.len()
                && #[trigger] projects[i].dependencies.contains(name) && (
            #[trigger] projects[j]).name == Some(name) && (#[trigger] projects[k]).name == Some(
                name,
            );
        assert(projects[i].dependencies.contains(name));
        assert(project_names::carries(projects, j, name) && project_names::carries(
            projects,
            k,
            name,
        ));
        assert(project_names::is_ambiguous(projects, name));
    }
    match result {
        Err(ReverseDependencyError::Ambiguous { name, candidates }) => {
            let i = choose|i: int|
                0 <= i < projects.len() && (#[trigger] projects[i]).dependencies.contains(name@);
            let (j, k) = choose|j: int, k: int|
                j < k && #[trigger] project_names::carries(projects, j, name@)
                    && #[trigger] project_names::carries(projects, k, name@);
            assert(projects[i].dependencies.contains(name@) && projects[j].name == Some(name@)
                && projects[k].name == Some(name@));
        },
        Err(ReverseDependencyError::OutsideRepository { path }) => {
            let i = choose|i: int| #[trigger]
                apply_reverse_dependencies::is_first_outside(projects, root, i)
                    && projects[i].path == path@;
            assert(!paths::is_under(projects[i].path, root));
            assert(paths::components(projects[i].path) == paths::components(projects[i].path));
        },
        Ok(_) => {},
    }
}

/// What is scheduled for some projects is scheduled for others with the same
/// names, places and dependencies.
proof fn lemma_no_more_is_scheduled(
    projects: Seq<ProjectView>,
    others: Seq<ProjectView>,
    root: Seq<char>,
    before: Map<Seq<Seq<char>>, EntryView>,
    after: Map<Seq<Seq<char>>, EntryView>,
    other_after: Map<Seq<Seq<char>>, EntryView>,
)
    requires
        projects.len() == others.len(),
        forall|k: int|
            0 <= k < projects.len() ==> (#[trigger] others[k]).name == (
            #[trigger] projects[k]).name && others[k].path == projects[k].path
                && others[k].dependencies == projects[k].dependencies,
        forall|k: int, l: int|
            0 <= k < l < projects.len() ==> paths::components((#[trigger] projects[k]).path).skip(
                paths::components(root).len() as int,
            ) != paths::components((#[trigger] projects[l]).path).skip(
                paths::components(root).len() as int,
            ),
        apply_reverse_dependencies::is_outcome(
            projects,
            root,
            before,
            after,
            Ok::<(), ReverseDependencyError>(()),
        ),
        apply_reverse_dependencies::is_outcome(
            others,
            root,
            before,
            other_after,
            Ok::<(), ReverseDependencyError>(()),
        ),
    ensures
        after.dom().subset_of(other_after.dom()),
{
    let closed = other_after.dom();
    assert forall|at: Seq<Seq<char>>| before.dom().contains(at) implies closed.contains(at) by {
        generated_updates_name_a_dependency(others, root, before, other_after, at);
    }
    assert forall|i: int, j: int, u: int, name: Seq<char>|
        0 <= i < projects.len() && 0 <= j < projects.len() && 0 <= u < projects.len()
            && #[trigger] projects[i].dependencies.contains(name) && (#[trigger] projects[u]).name
            == Some(name) && (forall|k: int|
            0 <= k < projects.len() && k != u ==> (#[trigger] projects[k]).name != Some(name)) && (j
            == u || (projects[j].name is None && name == "unknown"@ && !before.dom().contains(
            paths::components(projects[j].path).skip(paths::components(root).len() as int),
        ))) && closed.contains(
            paths::components((#[trigger] projects[j]).path).skip(
                paths::components(root).len() as int,
            ),
        ) implies closed.contains(
        paths::components(projects[i].path).skip(paths::components(root).len() as int),
    ) by {
        assert(others[i].dependencies == projects[i].dependencies);
        assert(others[j].path == projects[j].path);
        assert(others[u].name == projects[u].name);
        assert forall|k: int| 0 <= k < others.len() && k != u implies (#[trigger] others[k]).name
            != Some(name) by {
            assert(projects[k].name != Some(name));
        }
        assert forall|k: int| 0 <= k < others.len() && k != j implies paths::components(
            (#[trigger] others[k]).path,
        ).skip(paths::components(root).len() as int) != paths::components(others[j].path).skip(
            paths::components(root).len() as int,
        ) by {
            assert(others[k].path == projects[k].path);
            if k < j {
                assert(projects[k].path == projects[k].path && projects[j].path
                    == projects[j].path);
            }
        }
        expansion_is_closed_under_dependents(others, root, before, other_after, i, j, u, name);
    }
    expansion_schedules_nothing_else(projects, root, before, after, closed);
}

/// What is scheduled, and for which bump, depends on the names, places and
/// dependencies of the projects alone: versions, edited files and publishing play
/// no part. No two projects lie at one place.
pub proof fn only_names_places_and_dependencies_matter(
    projects: Seq<ProjectView>,
    others: Seq<ProjectView>,
    root: Seq<char>,
    before: Map<Seq<Seq<char>>, EntryView>,
    after: Map<Seq<Seq<char>>, EntryView>,
    other_after: Map<Seq<Seq<char>>, EntryView>,
)
    requires
        projects.len() == others.len(),
        forall|k: int|
            0 <= k < projects.len() ==> (#[trigger] others[k]).name == (
            #[trigger] projects[k]).name && others[k].path == projects[k].path
                && others[k].dependencies == projects[k].dependencies,
        forall|k: int, l: int|
            0 <= k < l < projects.len() ==> paths::components((#[trigger] projects[k]).path).skip(
                paths::components(root).len() as int,
            ) != paths::components((#[trigger] projects[l]).path).skip(
                paths::components(root).len() as int,
            ),
        apply_reverse_dependencies::is_outcome(
            projects,
            root,
            before,
            after,
            Ok::<(), ReverseDependencyError>(()),
        ),
        apply_reverse_dependencies::is_outcome(
            others,
            root,
            before,
            other_after,
            Ok::<(), ReverseDependencyError>(()),
        ),
    ensures
        after.dom() == other_after.dom(),
        forall|at: Seq<Seq<char>>| #[trigger]
            after.contains_key(at) ==> after[at].update_type == other_after[at].update_type,
{
    lemma_no_more_is_scheduled(projects, others, root, before, after, other_after);
    assert forall|k: int, l: int| 0 <= k < l < others.len() implies paths::components(
        (#[trigger] others[k]).path,
    ).skip(paths::components(root).len() as int) != paths::components(
        (#[trigger] others[l]).path,
    ).skip(paths::components(root).len() as int) by {
        assert(others[k].path == projects[k].path && others[l].path == projects[l].path);
    }
    assert forall|k: int| 0 <= k < others.len() implies (#[trigger] projects[k]).name == (
    #[trigger] others[k]).name && projects[k].path == others[k].path && projects[k].dependencies
        == others[k].dependencies by {}
    lemma_no_more_is_scheduled(others, projects, root, before, other_after, after);
    assert(after.dom() =~= other_after.dom());
    assert forall|at: Seq<Seq<char>>| #[trigger] after.contains_key(at) implies after[at].update_type
        == other_after[at].update_type by {
        generated_updates_name_a_dependency(projects, root, before, after, at);
        generated_updates_name_a_dependency(others, root, before, other_after, at);
    }
}

} // verus!
