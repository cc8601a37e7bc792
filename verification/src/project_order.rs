//! The order in which the projects are listed does not matter.

use crate::apply_reverse_dependencies;
use crate::apply_reverse_dependencies::ReverseDependencyError;
use crate::ordering;
use crate::paths;
use crate::project::ProjectView;
use crate::project_names;
use crate::text;
use crate::update_map::EntryView;
use vstd::prelude::*;

verus! {

/// `listed` holds the projects in another order: its `k`th is the `order[k]`th
/// of them.
pub open spec fn is_reordered(
    projects: Seq<ProjectView>,
    listed: Seq<ProjectView>,
    order: Seq<usize>,
) -> bool {
    &&& projects.len() <= usize::MAX
    &&& ordering::is_permutation(order, projects.len())
    &&& listed.len() == order.len()
    &&& forall|k: int| 0 <= k < order.len() ==> listed[k] == projects[#[trigger] order[k] as int]
}

/// Where the project stands in the other order.
spec fn place_in(order: Seq<usize>, i: int) -> int {
    order.index_of(i as usize)
}

proof fn lemma_place_in(
    projects: Seq<ProjectView>,
    listed: Seq<ProjectView>,
    order: Seq<usize>,
    i: int,
)
    requires
        is_reordered(projects, listed, order),
        0 <= i < projects.len(),
    ensures
        0 <= place_in(order, i) < listed.len(),
        order[place_in(order, i)] == i,
        listed[place_in(order, i)] == projects[i],
{
    assert(order.contains(i as usize));
}

proof fn lemma_same_unique(
    projects: Seq<ProjectView>,
    listed: Seq<ProjectView>,
    order: Seq<usize>,
    name: Seq<char>,
)
    requires
        is_reordered(projects, listed, order),
    ensures
        project_names::is_unique(listed, name) == project_names::is_unique(projects, name),
{
    if project_names::is_unique(projects, name) {
        let i = choose|i: int| #[trigger]
            project_names::carries(projects, i, name) && forall|j: int| #[trigger]
                project_names::carries(projects, j, name) ==> j == i;
        lemma_place_in(projects, listed, order, i);
        let k = place_in(order, i);
        assert(project_names::carries(listed, k, name));
        assert forall|l: int| #[trigger] project_names::carries(listed, l, name) implies l == k by {
            assert(project_names::carries(projects, order[l] as int, name));
            assert(order[l] == order[k]);
        }
    }
    if project_names::is_unique(listed, name) {
        let k = choose|k: int| #[trigger]
            project_names::carries(listed, k, name) && forall|l: int| #[trigger]
                project_names::carries(listed, l, name) ==> l == k;
        let i = order[k] as int;
        assert(project_names::carries(projects, i, name));
        assert forall|j: int| #[trigger] project_names::carries(projects, j, name) implies j
            == i by {
            lemma_place_in(projects, listed, order, j);
            assert(project_names::carries(listed, place_in(order, j), name));
        }
    }
}

proof fn lemma_same_shared(
    projects: Seq<ProjectView>,
    listed: Seq<ProjectView>,
    order: Seq<usize>,
    name: Seq<char>,
)
    requires
        is_reordered(projects, listed, order),
    ensures
        project_names::is_shared(listed, name) == project_names::is_shared(projects, name),
{
    reveal(project_names::is_shared);
    if project_names::is_shared(projects, name) {
        let (i, j) = choose|i: int, j: int|
            i < j && #[trigger] project_names::carries(projects, i, name)
                && #[trigger] project_names::carries(projects, j, name);
        lemma_place_in(projects, listed, order, i);
        lemma_place_in(projects, listed, order, j);
        assert(project_names::carries(listed, place_in(order, i), name));
        assert(project_names::carries(listed, place_in(order, j), name));
        assert(place_in(order, i) < place_in(order, j) || place_in(order, j) < place_in(order, i));
    }
    if project_names::is_shared(listed, name) {
        let (k, l) = choose|k: int, l: int|
            k < l && #[trigger] project_names::carries(listed, k, name)
                && #[trigger] project_names::carries(listed, l, name);
        assert(project_names::carries(projects, order[k] as int, name));
        assert(project_names::carries(projects, order[l] as int, name));
        assert(order[k] != order[l]);
    }
}

proof fn lemma_same_referenced(
    projects: Seq<ProjectView>,
    listed: Seq<ProjectView>,
    order: Seq<usize>,
    name: Seq<char>,
)
    requires
        is_reordered(projects, listed, order),
    ensures
        project_names::is_referenced(listed, name) == project_names::is_referenced(projects, name),
{
    if project_names::is_referenced(projects, name) {
        let i = choose|i: int|
            0 <= i < projects.len() && (#[trigger] projects[i]).dependencies.contains(name);
        lemma_place_in(projects, listed, order, i);
        assert(listed[place_in(order, i)].dependencies.contains(name));
    }
    if project_names::is_referenced(listed, name) {
        let k = choose|k: int|
            0 <= k < listed.len() && (#[trigger] listed[k]).dependencies.contains(name);
        assert(projects[order[k] as int].dependencies.contains(name));
    }
}

/// A project triggers, and passes on, what it does wherever it stands.
proof fn lemma_same_project(
    projects: Seq<ProjectView>,
    listed: Seq<ProjectView>,
    order: Seq<usize>,
    k: int,
)
    requires
        is_reordered(projects, listed, order),
        0 <= k < listed.len(),
    ensures
        forall|name: Seq<char>|
            #[trigger] apply_reverse_dependencies::triggers(listed, name, k)
                == apply_reverse_dependencies::triggers(projects, name, order[k] as int),
        apply_reverse_dependencies::passes_on(listed, k) == apply_reverse_dependencies::passes_on(
            projects,
            order[k] as int,
        ),
        apply_reverse_dependencies::has_own_name(listed, k)
            == apply_reverse_dependencies::has_own_name(projects, order[k] as int),
        listed[k] == projects[order[k] as int],
        0 <= order[k] < projects.len(),
{
    assert(0 <= order[k] < projects.len());
    assert forall|name: Seq<char>|
        #[trigger] apply_reverse_dependencies::triggers(listed, name, k)
            == apply_reverse_dependencies::triggers(projects, name, order[k] as int) by {
        lemma_same_unique(projects, listed, order, name);
    }
    if listed[k].name is Some {
        lemma_same_unique(projects, listed, order, listed[k].name->0);
    }
}

proof fn lemma_reordered_places(
    projects: Seq<ProjectView>,
    listed: Seq<ProjectView>,
    order: Seq<usize>,
    root: Seq<char>,
)
    requires
        is_reordered(projects, listed, order),
        apply_reverse_dependencies::distinct_places(projects, root),
    ensures
        apply_reverse_dependencies::distinct_places(listed, root),
{
    assert forall|k: int, l: int|
        0 <= k < l
            < listed.len() implies #[trigger] apply_reverse_dependencies::place(listed[k], root)
        != #[trigger] apply_reverse_dependencies::place(listed[l], root) by {
        let i = order[k] as int;
        let j = order[l] as int;
        assert(i != j);
        assert(listed[k] == projects[i] && listed[l] == projects[j]);
        if i < j {
            assert(apply_reverse_dependencies::place(projects[i], root)
                != apply_reverse_dependencies::place(projects[j], root));
        } else {
            assert(apply_reverse_dependencies::place(projects[j], root)
                != apply_reverse_dependencies::place(projects[i], root));
        }
    }
}

proof fn lemma_same_seed_names(
    projects: Seq<ProjectView>,
    listed: Seq<ProjectView>,
    order: Seq<usize>,
    root: Seq<char>,
    scheduled: Set<Seq<Seq<char>>>,
    seeds: Set<Seq<Seq<char>>>,
    name: Seq<char>,
)
    requires
        is_reordered(projects, listed, order),
        apply_reverse_dependencies::distinct_places(projects, root),
    ensures
        apply_reverse_dependencies::is_seed_name(listed, root, scheduled, seeds, name)
            == apply_reverse_dependencies::is_seed_name(projects, root, scheduled, seeds, name),
{
    lemma_reordered_places(projects, listed, order, root);
    if apply_reverse_dependencies::is_seed_name(projects, root, scheduled, seeds, name) {
        let i = choose|i: int| #[trigger]
            apply_reverse_dependencies::is_seed(projects, root, scheduled, seeds, i)
                && projects[i].name == Some(name);
        lemma_place_in(projects, listed, order, i);
        let k = place_in(order, i);
        lemma_same_project(projects, listed, order, k);
        assert(apply_reverse_dependencies::is_seed(listed, root, scheduled, seeds, k));
    }
    if apply_reverse_dependencies::is_seed_name(listed, root, scheduled, seeds, name) {
        let k = choose|k: int| #[trigger]
            apply_reverse_dependencies::is_seed(listed, root, scheduled, seeds, k)
                && listed[k].name == Some(name);
        lemma_same_project(projects, listed, order, k);
        assert(apply_reverse_dependencies::is_seed(
            projects,
            root,
            scheduled,
            seeds,
            order[k] as int,
        ));
    }
}

proof fn lemma_same_hits(
    projects: Seq<ProjectView>,
    listed: Seq<ProjectView>,
    order: Seq<usize>,
    root: Seq<char>,
    queue: Seq<Seq<char>>,
    at: Seq<Seq<char>>,
)
    requires
        is_reordered(projects, listed, order),
    ensures
        forall|k: int, m: int| #[trigger]
            apply_reverse_dependencies::is_hit(listed, root, queue, at, k, m) ==> 0 <= k
                < listed.len() && apply_reverse_dependencies::is_hit(
                projects,
                root,
                queue,
                at,
                order[k] as int,
                m,
            ),
        forall|i: int, m: int| #[trigger]
            apply_reverse_dependencies::is_hit(projects, root, queue, at, i, m) ==> 0 <= i
                < projects.len() && apply_reverse_dependencies::is_hit(
                listed,
                root,
                queue,
                at,
                place_in(order, i),
                m,
            ),
        apply_reverse_dependencies::is_reached(listed, root, queue, at)
            == apply_reverse_dependencies::is_reached(projects, root, queue, at),
{
    assert forall|k: int, m: int| #[trigger]
        apply_reverse_dependencies::is_hit(listed, root, queue, at, k, m) implies 0 <= k
        < listed.len() && apply_reverse_dependencies::is_hit(
        projects,
        root,
        queue,
        at,
        order[k] as int,
        m,
    ) by {
        lemma_same_project(projects, listed, order, k);
        assert(apply_reverse_dependencies::triggers(listed, queue[m], k));
    }
    assert forall|i: int, m: int| #[trigger]
        apply_reverse_dependencies::is_hit(projects, root, queue, at, i, m) implies 0 <= i
        < projects.len() && apply_reverse_dependencies::is_hit(
        listed,
        root,
        queue,
        at,
        place_in(order, i),
        m,
    ) by {
        lemma_place_in(projects, listed, order, i);
        lemma_same_project(projects, listed, order, place_in(order, i));
        assert(apply_reverse_dependencies::triggers(listed, queue[m], place_in(order, i))
            == apply_reverse_dependencies::triggers(projects, queue[m], i));
    }
    if apply_reverse_dependencies::is_reached(listed, root, queue, at) {
        let (k, m) = choose|k: int, m: int| #[trigger]
            apply_reverse_dependencies::is_hit(listed, root, queue, at, k, m);
        assert(apply_reverse_dependencies::is_hit(projects, root, queue, at, order[k] as int, m));
    }
    if apply_reverse_dependencies::is_reached(projects, root, queue, at) {
        let (i, m) = choose|i: int, m: int| #[trigger]
            apply_reverse_dependencies::is_hit(projects, root, queue, at, i, m);
        assert(apply_reverse_dependencies::is_hit(listed, root, queue, at, place_in(order, i), m));
    }
}

/// An expansion of the projects in another order is one of the projects.
proof fn lemma_same_expansion(
    projects: Seq<ProjectView>,
    listed: Seq<ProjectView>,
    order: Seq<usize>,
    root: Seq<char>,
    scheduled: Set<Seq<Seq<char>>>,
    seeds: Set<Seq<Seq<char>>>,
    queue: Seq<Seq<char>>,
)
    requires
        is_reordered(projects, listed, order),
        apply_reverse_dependencies::distinct_places(projects, root),
        apply_reverse_dependencies::is_expansion(listed, root, scheduled, seeds, queue),
    ensures
        apply_reverse_dependencies::is_expansion(projects, root, scheduled, seeds, queue),
{
    assert forall|name: Seq<char>| #[trigger]
        apply_reverse_dependencies::is_seed_name(
            projects,
            root,
            scheduled,
            seeds,
            name,
        ) implies queue.contains(name) by {
        lemma_same_seed_names(projects, listed, order, root, scheduled, seeds, name);
    }
    assert forall|n: int| 0 <= n < queue.len() implies apply_reverse_dependencies::is_seed_name(
        projects,
        root,
        scheduled,
        seeds,
        #[trigger] queue[n],
    ) || apply_reverse_dependencies::is_passed_on(projects, root, seeds, queue, n) by {
        lemma_same_seed_names(projects, listed, order, root, scheduled, seeds, queue[n]);
        if !apply_reverse_dependencies::is_seed_name(listed, root, scheduled, seeds, queue[n]) {
            assert(apply_reverse_dependencies::is_passed_on(listed, root, seeds, queue, n));
            let (k, m) = choose|k: int, m: int|
                0 <= m < n && #[trigger] apply_reverse_dependencies::is_hit(
                    listed,
                    root,
                    queue,
                    apply_reverse_dependencies::place(listed[k], root),
                    k,
                    m,
                ) && !seeds.contains(apply_reverse_dependencies::place(listed[k], root))
                    && apply_reverse_dependencies::passes_on(listed, k) == Some(queue[n]);
            let at = apply_reverse_dependencies::place(listed[k], root);
            lemma_same_hits(projects, listed, order, root, queue, at);
            lemma_same_project(projects, listed, order, k);
            assert(apply_reverse_dependencies::is_hit(
                projects,
                root,
                queue,
                apply_reverse_dependencies::place(projects[order[k] as int], root),
                order[k] as int,
                m,
            ));
        }
    }
    assert forall|at: Seq<Seq<char>>| #[trigger]
        apply_reverse_dependencies::is_reached(projects, root, queue, at) && !seeds.contains(
            at,
        ) implies exists|i: int, m: int| #[trigger]
        apply_reverse_dependencies::is_hit(projects, root, queue, at, i, m) && (
        apply_reverse_dependencies::passes_on(projects, i) matches Some(w) ==> queue.contains(
            w,
        )) by {
        lemma_same_hits(projects, listed, order, root, queue, at);
        let (k, m) = choose|k: int, m: int| #[trigger]
            apply_reverse_dependencies::is_hit(listed, root, queue, at, k, m) && (
            apply_reverse_dependencies::passes_on(listed, k) matches Some(w) ==> queue.contains(
                w,
            ));
        lemma_same_project(projects, listed, order, k);
        assert(apply_reverse_dependencies::is_hit(projects, root, queue, at, order[k] as int, m));
    }
}

/// What the projects in another order are expanded to is what the projects are
/// expanded to.
proof fn lemma_same_expanded(
    projects: Seq<ProjectView>,
    listed: Seq<ProjectView>,
    order: Seq<usize>,
    root: Seq<char>,
    queue: Seq<Seq<char>>,
    before: Map<Seq<Seq<char>>, EntryView>,
    after: Map<Seq<Seq<char>>, EntryView>,
)
    requires
        is_reordered(projects, listed, order),
        apply_reverse_dependencies::is_expanded(listed, root, queue, before, after),
    ensures
        apply_reverse_dependencies::is_expanded(projects, root, queue, before, after),
{
    assert forall|at: Seq<Seq<char>>|
        #[trigger] after.contains_key(at) <==> before.contains_key(at)
            || apply_reverse_dependencies::is_reached(projects, root, queue, at) by {
        lemma_same_hits(projects, listed, order, root, queue, at);
    }
    assert forall|at: Seq<Seq<char>>| #[trigger]
        after.contains_key(at) && !before.contains_key(
            at,
        ) implies apply_reverse_dependencies::is_generated(
        projects,
        root,
        queue,
        at,
        after[at],
    ) by {
        let entry = after[at];
        lemma_same_hits(projects, listed, order, root, queue, at);
        assert(apply_reverse_dependencies::is_generated(listed, root, queue, at, entry));
        let (k, m) = choose|k: int, m: int| #[trigger]
            apply_reverse_dependencies::is_hit(listed, root, queue, at, k, m) && paths::below(
                listed[k].path,
                root,
            ) == Some(entry.path);
        lemma_same_project(projects, listed, order, k);
        assert(apply_reverse_dependencies::is_hit(projects, root, queue, at, order[k] as int, m));
        let (k2, m2) = choose|k2: int, m2: int| #[trigger]
            apply_reverse_dependencies::is_hit(listed, root, queue, at, k2, m2)
                && apply_reverse_dependencies::is_noted(entry, queue[m2])
                && apply_reverse_dependencies::is_smallest_hit(listed, root, queue, at, m2);
        assert(apply_reverse_dependencies::is_hit(projects, root, queue, at, order[k2] as int, m2));
        assert(apply_reverse_dependencies::is_smallest_hit(projects, root, queue, at, m2)) by {
            assert forall|i3: int, m3: int| #[trigger]
                apply_reverse_dependencies::is_hit(
                    projects,
                    root,
                    queue,
                    at,
                    i3,
                    m3,
                ) implies text::text_le(queue[m2], queue[m3]) by {
                assert(apply_reverse_dependencies::is_hit(
                    listed,
                    root,
                    queue,
                    at,
                    place_in(order, i3),
                    m3,
                ));
            }
        }
    }
}

/// A name that one expansion goes through, every one does.
proof fn lemma_same_names(
    projects: Seq<ProjectView>,
    root: Seq<char>,
    scheduled: Set<Seq<Seq<char>>>,
    seeds: Set<Seq<Seq<char>>>,
    queue: Seq<Seq<char>>,
    other: Seq<Seq<char>>,
    m: int,
)
    requires
        apply_reverse_dependencies::distinct_places(projects, root),
        apply_reverse_dependencies::is_expansion(projects, root, scheduled, seeds, queue),
        apply_reverse_dependencies::is_expansion(projects, root, scheduled, seeds, other),
        0 <= m < queue.len(),
    ensures
        other.contains(queue[m]),
{
    apply_reverse_dependencies::lemma_queue_on_the_way(projects, root, scheduled, seeds, queue, m);
    let chain = choose|chain: Seq<Seq<char>>| #[trigger]
        apply_reverse_dependencies::is_chain(projects, root, scheduled, seeds, chain)
            && chain.last() == queue[m];
    apply_reverse_dependencies::lemma_chain_in_queue(
        projects,
        root,
        scheduled,
        seeds,
        other,
        chain,
    );
}

proof fn lemma_hit_in_other(
    projects: Seq<ProjectView>,
    root: Seq<char>,
    scheduled: Set<Seq<Seq<char>>>,
    seeds: Set<Seq<Seq<char>>>,
    queue: Seq<Seq<char>>,
    other: Seq<Seq<char>>,
    at: Seq<Seq<char>>,
    i: int,
    m: int,
) -> (n: int)
    requires
        apply_reverse_dependencies::distinct_places(projects, root),
        apply_reverse_dependencies::is_expansion(projects, root, scheduled, seeds, queue),
        apply_reverse_dependencies::is_expansion(projects, root, scheduled, seeds, other),
        apply_reverse_dependencies::is_hit(projects, root, queue, at, i, m),
    ensures
        apply_reverse_dependencies::is_hit(projects, root, other, at, i, n),
        other[n] == queue[m],
{
    lemma_same_names(projects, root, scheduled, seeds, queue, other, m);
    other.index_of(queue[m])
}

/// Where no two projects share a place, all expansions come to the same.
proof fn lemma_one_expansion(
    projects: Seq<ProjectView>,
    root: Seq<char>,
    seeds: Set<Seq<Seq<char>>>,
    queue: Seq<Seq<char>>,
    other: Seq<Seq<char>>,
    before: Map<Seq<Seq<char>>, EntryView>,
    after: Map<Seq<Seq<char>>, EntryView>,
    other_after: Map<Seq<Seq<char>>, EntryView>,
)
    requires
        apply_reverse_dependencies::distinct_places(projects, root),
        apply_reverse_dependencies::is_expansion(projects, root, before.dom(), seeds, queue),
        apply_reverse_dependencies::is_expansion(projects, root, before.dom(), seeds, other),
        apply_reverse_dependencies::is_expanded(projects, root, queue, before, after),
        apply_reverse_dependencies::is_expanded(projects, root, other, before, other_after),
    ensures
        other_after == after,
{
    let dom = before.dom();
    assert forall|at: Seq<Seq<char>>|
        #[trigger] other_after.contains_key(at) == after.contains_key(at) by {
        if apply_reverse_dependencies::is_reached(projects, root, queue, at) {
            let (i, m) = choose|i: int, m: int| #[trigger]
                apply_reverse_dependencies::is_hit(projects, root, queue, at, i, m);
            let n = lemma_hit_in_other(projects, root, dom, seeds, queue, other, at, i, m);
        }
        if apply_reverse_dependencies::is_reached(projects, root, other, at) {
            let (i, m) = choose|i: int, m: int| #[trigger]
                apply_reverse_dependencies::is_hit(projects, root, other, at, i, m);
            let n = lemma_hit_in_other(projects, root, dom, seeds, other, queue, at, i, m);
        }
    }
    assert forall|at: Seq<Seq<char>>| #[trigger]
        after.contains_key(at) implies other_after[at] == after[at] by {
        assert(other_after.contains_key(at));
        if !before.contains_key(at) {
            lemma_one_entry(
                projects,
                root,
                dom,
                seeds,
                queue,
                other,
                at,
                after[at],
                other_after[at],
            );
        }
    }
    assert(other_after =~= after);
}

proof fn lemma_one_entry(
    projects: Seq<ProjectView>,
    root: Seq<char>,
    scheduled: Set<Seq<Seq<char>>>,
    seeds: Set<Seq<Seq<char>>>,
    queue: Seq<Seq<char>>,
    other: Seq<Seq<char>>,
    at: Seq<Seq<char>>,
    entry: EntryView,
    other_entry: EntryView,
)
    requires
        apply_reverse_dependencies::distinct_places(projects, root),
        apply_reverse_dependencies::is_expansion(projects, root, scheduled, seeds, queue),
        apply_reverse_dependencies::is_expansion(projects, root, scheduled, seeds, other),
        apply_reverse_dependencies::is_generated(projects, root, queue, at, entry),
        apply_reverse_dependencies::is_generated(projects, root, other, at, other_entry),
    ensures
        other_entry == entry,
{
    let (i, m) = choose|i: int, m: int| #[trigger]
        apply_reverse_dependencies::is_hit(projects, root, queue, at, i, m) && paths::below(
            projects[i].path,
            root,
        ) == Some(entry.path);
    let (j, n) = choose|j: int, n: int| #[trigger]
        apply_reverse_dependencies::is_hit(projects, root, other, at, j, n) && paths::below(
            projects[j].path,
            root,
        ) == Some(other_entry.path);
    assert(apply_reverse_dependencies::place(projects[i], root)
        == apply_reverse_dependencies::place(projects[j], root));
    assert(i == j);
    let (i2, m2) = choose|i2: int, m2: int| #[trigger]
        apply_reverse_dependencies::is_hit(projects, root, queue, at, i2, m2)
            && apply_reverse_dependencies::is_noted(entry, queue[m2])
            && apply_reverse_dependencies::is_smallest_hit(projects, root, queue, at, m2);
    let (j2, n2) = choose|j2: int, n2: int| #[trigger]
        apply_reverse_dependencies::is_hit(projects, root, other, at, j2, n2)
            && apply_reverse_dependencies::is_noted(other_entry, other[n2])
            && apply_reverse_dependencies::is_smallest_hit(projects, root, other, at, n2);
    let n3 = lemma_hit_in_other(projects, root, scheduled, seeds, queue, other, at, i2, m2);
    let m3 = lemma_hit_in_other(projects, root, scheduled, seeds, other, queue, at, j2, n2);
    assert(text::text_le(queue[m2], queue[m3]));
    assert(text::text_le(other[n2], other[n3]));
    text::text_lt_total(queue[m2], other[n2]);
    assert(queue[m2] == other[n2]);
    assert(entry.logs =~= other_entry.logs);
}

/// No two projects lie outside the repository.
pub open spec fn at_most_one_outside(projects: Seq<ProjectView>, root: Seq<char>) -> bool {
    forall|i: int, j: int|
        0 <= i < j < projects.len() ==> paths::is_under((#[trigger] projects[i]).path, root)
            || paths::is_under((#[trigger] projects[j]).path, root)
}

proof fn lemma_carriers_without(projects: Seq<ProjectView>, name: Seq<char>, at: int)
    requires
        0 <= at < projects.len(),
    ensures
        project_names::carrier_paths(projects, name).to_multiset() == if projects[at].name == Some(
            name,
        ) {
            project_names::carrier_paths(projects.remove(at), name).to_multiset().insert(
                projects[at].relative_path,
            )
        } else {
            project_names::carrier_paths(projects.remove(at), name).to_multiset()
        },
    decreases projects.len(),
{
    broadcast use vstd::seq_lib::group_to_multiset_ensures;

    let last = projects.len() - 1;
    if at == last {
        assert(projects.remove(at) =~= projects.drop_last());
    } else {
        let shorter = projects.drop_last();
        lemma_carriers_without(shorter, name, at);
        assert(projects.remove(at).drop_last() =~= shorter.remove(at));
        assert(projects.remove(at).last() == projects.last());
        let whole = project_names::carrier_paths(shorter, name);
        let rest = project_names::carrier_paths(shorter.remove(at), name);
        assert(whole.push(projects.last().relative_path).to_multiset()
            =~= whole.to_multiset().insert(projects.last().relative_path));
        assert(rest.push(projects.last().relative_path).to_multiset()
            =~= rest.to_multiset().insert(projects.last().relative_path));
        assert(rest.to_multiset().insert(projects[at].relative_path).insert(
            projects.last().relative_path,
        ) =~= rest.to_multiset().insert(projects.last().relative_path).insert(
            projects[at].relative_path,
        ));
    }
}

proof fn lemma_same_carriers(
    projects: Seq<ProjectView>,
    listed: Seq<ProjectView>,
    name: Seq<char>,
)
    requires
        projects.to_multiset() == listed.to_multiset(),
    ensures
        project_names::carrier_paths(projects, name).to_multiset() == project_names::carrier_paths(
            listed,
            name,
        ).to_multiset(),
    decreases projects.len(),
{
    broadcast use vstd::seq_lib::group_to_multiset_ensures;

    if projects.len() == 0 {
        assert(listed.to_multiset().len() == 0);
        assert(listed =~= projects);
    } else {
        let last = projects.last();
        assert(projects.contains(projects[projects.len() - 1]));
        assert(listed.to_multiset().count(last) > 0);
        assert(listed.contains(last));
        let at = listed.index_of(last);
        let fewer = listed.remove(at);
        assert(projects =~= projects.drop_last().push(last));
        assert(projects.drop_last().to_multiset() =~= projects.to_multiset().remove(last));
        assert(fewer.to_multiset() =~= listed.to_multiset().remove(last));
        lemma_same_carriers(projects.drop_last(), fewer, name);
        lemma_carriers_without(listed, name, at);
        let paths = project_names::carrier_paths(projects.drop_last(), name);
        assert(paths.push(last.relative_path).to_multiset() =~= paths.to_multiset().insert(
            last.relative_path,
        ));
    }
}

/// Two lists of the same paths in order are the same.
proof fn lemma_one_sorted_list(left: Seq<Seq<char>>, right: Seq<Seq<char>>)
    requires
        project_names::paths_in_order(left),
        project_names::paths_in_order(right),
        left.to_multiset() == right.to_multiset(),
    ensures
        left == right,
{
    let leq = |a: Seq<char>, b: Seq<char>| !paths::path_lt(b, a);
    assert forall|a: Seq<char>, b: Seq<char>| #[trigger] leq(a, b) || #[trigger] leq(b, a) by {
        ordering::list_lt_total(paths::path_sort_key(a), paths::path_sort_key(b));
    }
    assert forall|a: Seq<char>| #[trigger] leq(a, a) by {
        ordering::list_lt_total(paths::path_sort_key(a), paths::path_sort_key(a));
    }
    assert forall|a: Seq<char>, b: Seq<char>| #[trigger]
        leq(a, b) && #[trigger] leq(b, a) implies a == b by {
        ordering::list_lt_total(paths::path_sort_key(a), paths::path_sort_key(b));
        assert(paths::path_sort_key(a)[1] == a && paths::path_sort_key(b)[1] == b);
    }
    assert forall|a: Seq<char>, b: Seq<char>, c: Seq<char>| #[trigger]
        leq(a, b) && #[trigger] leq(b, c) implies leq(a, c) by {
        let (ka, kb, kc) = (
            paths::path_sort_key(a),
            paths::path_sort_key(b),
            paths::path_sort_key(c),
        );
        ordering::list_lt_total(ka, kb);
        ordering::list_lt_total(kb, kc);
        ordering::list_lt_total(ka, kc);
        if ka != kb && kb != kc {
            ordering::list_lt_transitive(ka, kb, kc);
        }
    }
    assert(vstd::relations::total_ordering(leq));
    assert(vstd::relations::sorted_by(left, leq));
    assert(vstd::relations::sorted_by(right, leq));
    vstd::seq_lib::lemma_sorted_unique(left, right, leq);
}

proof fn lemma_same_ambiguity(
    projects: Seq<ProjectView>,
    listed: Seq<ProjectView>,
    order: Seq<usize>,
)
    requires
        is_reordered(projects, listed, order),
    ensures
        forall|name: Seq<char>|
            #[trigger] project_names::is_ambiguous(listed, name) == project_names::is_ambiguous(
                projects,
                name,
            ),
        forall|name: Seq<char>|
            #[trigger] project_names::is_ambiguous(projects, name) == project_names::is_ambiguous(
                listed,
                name,
            ),
{
    assert forall|name: Seq<char>|
        #[trigger] project_names::is_ambiguous(listed, name) == project_names::is_ambiguous(
            projects,
            name,
        ) by {
        lemma_same_shared(projects, listed, order, name);
        lemma_same_referenced(projects, listed, order, name);
    }
}

proof fn lemma_same_work(
    projects: Seq<ProjectView>,
    listed: Seq<ProjectView>,
    order: Seq<usize>,
    root: Seq<char>,
)
    requires
        is_reordered(projects, listed, order),
    ensures
        apply_reverse_dependencies::has_dependencies(listed)
            == apply_reverse_dependencies::has_dependencies(projects),
        apply_reverse_dependencies::all_inside(listed, root)
            == apply_reverse_dependencies::all_inside(projects, root),
{
    if apply_reverse_dependencies::has_dependencies(projects) {
        let (i, name) = choose|i: int, name: Seq<char>|
            0 <= i < projects.len() && #[trigger] projects[i].dependencies.contains(name);
        lemma_place_in(projects, listed, order, i);
        assert(listed[place_in(order, i)].dependencies.contains(name));
    }
    if apply_reverse_dependencies::has_dependencies(listed) {
        let (k, name) = choose|k: int, name: Seq<char>|
            0 <= k < listed.len() && #[trigger] listed[k].dependencies.contains(name);
        assert(projects[order[k] as int].dependencies.contains(name));
    }
    if apply_reverse_dependencies::all_inside(listed, root) {
        assert forall|i: int| 0 <= i < projects.len() implies paths::is_under(
            (#[trigger] projects[i]).path,
            root,
        ) by {
            lemma_place_in(projects, listed, order, i);
            assert(paths::is_under(listed[place_in(order, i)].path, root));
        }
    }
    if apply_reverse_dependencies::all_inside(projects, root) {
        assert forall|k: int| 0 <= k < listed.len() implies paths::is_under(
            (#[trigger] listed[k]).path,
            root,
        ) by {
            assert(paths::is_under(projects[order[k] as int].path, root));
        }
    }
}

/// Whether an expansion is refused, and what the user is told, does not depend
/// on the order of the projects, where no two lie outside the repository.
pub proof fn refusal_does_not_depend_on_project_order(
    projects: Seq<ProjectView>,
    listed: Seq<ProjectView>,
    order: Seq<usize>,
    root: Seq<char>,
    before: Map<Seq<Seq<char>>, EntryView>,
    after: Map<Seq<Seq<char>>, EntryView>,
    other_after: Map<Seq<Seq<char>>, EntryView>,
    result: Result<(), ReverseDependencyError>,
    other_result: Result<(), ReverseDependencyError>,
)
    requires
        is_reordered(projects, listed, order),
        at_most_one_outside(projects, root),
        apply_reverse_dependencies::is_outcome(projects, root, before, after, result),
        apply_reverse_dependencies::is_outcome(listed, root, before, other_after, other_result),
    ensures
        result is Ok <==> other_result is Ok,
        result is Err ==> apply_reverse_dependencies::error_message(result->Err_0)
            == apply_reverse_dependencies::error_message(other_result->Err_0),
{
    lemma_same_ambiguity(projects, listed, order);
    lemma_same_work(projects, listed, order, root);
    if result is Err && other_result is Err {
        match (result->Err_0, other_result->Err_0) {
            (
                ReverseDependencyError::Ambiguous { name, candidates },
                ReverseDependencyError::Ambiguous { name: n, candidates: c },
            ) => {
                text::text_lt_total(name@, n@);
                assert(name@ == n@);
                ordering::lemma_permuted_multiset(projects, order, listed);
                lemma_same_carriers(projects, listed, name@);
                lemma_one_sorted_list(paths::views(candidates@), paths::views(c@));
            },
            (
                ReverseDependencyError::OutsideRepository { path },
                ReverseDependencyError::OutsideRepository { path: p },
            ) => {
                let i = choose|i: int| #[trigger]
                    apply_reverse_dependencies::is_first_outside(projects, root, i)
                        && projects[i].path == path@;
                let k = choose|k: int| #[trigger]
                    apply_reverse_dependencies::is_first_outside(listed, root, k)
                        && listed[k].path == p@;
                assert(listed[k] == projects[order[k] as int]);
                assert(order[k] == i);
            },
            _ => {},
        }
    }
}

/// What an expansion schedules, under which notes, does not depend on the order
/// of the projects, where no two lie at the same place.
pub proof fn expansion_does_not_depend_on_project_order(
    projects: Seq<ProjectView>,
    listed: Seq<ProjectView>,
    order: Seq<usize>,
    root: Seq<char>,
    before: Map<Seq<Seq<char>>, EntryView>,
    after: Map<Seq<Seq<char>>, EntryView>,
    other_after: Map<Seq<Seq<char>>, EntryView>,
    result: Result<(), ReverseDependencyError>,
    other_result: Result<(), ReverseDependencyError>,
)
    requires
        is_reordered(projects, listed, order),
        apply_reverse_dependencies::distinct_places(projects, root),
        apply_reverse_dependencies::is_outcome(projects, root, before, after, result),
        apply_reverse_dependencies::is_outcome(listed, root, before, other_after, other_result),
    ensures
        result is Ok <==> other_result is Ok,
        other_after == after,
{
    lemma_same_ambiguity(projects, listed, order);
    lemma_same_work(projects, listed, order, root);
    if result is Ok && other_result is Ok && apply_reverse_dependencies::has_dependencies(
        projects,
    ) {
        let dom = before.dom();
        let queue = choose|queue: Seq<Seq<char>>| #[trigger]
            apply_reverse_dependencies::is_expansion(projects, root, dom, dom, queue)
                && apply_reverse_dependencies::is_expanded(projects, root, queue, before, after);
        let other = choose|queue: Seq<Seq<char>>| #[trigger]
            apply_reverse_dependencies::is_expansion(listed, root, dom, dom, queue)
                && apply_reverse_dependencies::is_expanded(
                listed,
                root,
                queue,
                before,
                other_after,
            );
        lemma_same_expansion(projects, listed, order, root, dom, dom, other);
        lemma_same_expanded(projects, listed, order, root, other, before, other_after);
        lemma_one_expansion(projects, root, dom, queue, other, before, after, other_after);
    }
}

} // verus!
