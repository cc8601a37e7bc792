//! Which project a dependency name stands for.

use crate::paths;
use crate::project::{Project, ProjectView};
use crate::text;
use crate::text::same_text;
use crate::text_set;
use vstd::prelude::*;
use vstd::string::*;

verus! {

/// The projects over mathematical values.
pub open spec fn facts(projects: Seq<&Project>) -> Seq<ProjectView> {
    projects.map_values(|p: &Project| p@)
}

/// Every project is well formed.
pub open spec fn all_well_formed(projects: Seq<&Project>) -> bool {
    forall|i: int| 0 <= i < projects.len() ==> (#[trigger] projects[i]).well_formed()
}

/// Project `i` carries the name `name`.
pub open spec fn carries(projects: Seq<ProjectView>, i: int, name: Seq<char>) -> bool {
    0 <= i < projects.len() && projects[i].name == Some(name)
}

/// Exactly one project carries the name.
pub open spec fn is_unique(projects: Seq<ProjectView>, name: Seq<char>) -> bool {
    exists|i: int| #[trigger]
        carries(projects, i, name) && forall|j: int| #[trigger]
            carries(projects, j, name) ==> j == i
}

/// Two projects or more carry the name.
#[verifier::opaque]
pub open spec fn is_shared(projects: Seq<ProjectView>, name: Seq<char>) -> bool {
    exists|i: int, j: int|
        i < j && #[trigger] carries(projects, i, name) && #[trigger] carries(projects, j, name)
}

/// Some project depends on the name.
pub open spec fn is_referenced(projects: Seq<ProjectView>, name: Seq<char>) -> bool {
    exists|i: int|
        0 <= i < projects.len() && (#[trigger] projects[i]).dependencies.contains(name)
}

/// A dependency name that does not say which project it means.
pub open spec fn is_ambiguous(projects: Seq<ProjectView>, name: Seq<char>) -> bool {
    is_referenced(projects, name) && is_shared(projects, name)
}

/// How many projects carry a name, as far as it matters.
pub enum Carriers {
    Nobody,
    Unique(usize),
    Shared,
}

/// Looks a name up among the projects.
pub fn resolve(projects: &[&Project], name: &str) -> (found: Carriers)
    ensures
        match found {
            Carriers::Nobody => forall|i: int| !#[trigger] carries(facts(projects@), i, name@),
            Carriers::Unique(at) => carries(facts(projects@), at as int, name@) && is_unique(
                facts(projects@),
                name@,
            ),
            Carriers::Shared => is_shared(facts(projects@), name@),
        },
        found is Unique <==> is_unique(facts(projects@), name@),
        found is Shared <==> is_shared(facts(projects@), name@),
{
    let ghost all = facts(projects@);
    proof {
        reveal(is_shared);
    }
    let mut seen: Option<usize> = None;
    let mut i: usize = 0;
    while i < projects.len()
        invariant
            i <= projects.len(),
            all == facts(projects@),
            match seen {
                Some(at) => at < i && carries(all, at as int, name@) && forall|k: int|
                    k < i && #[trigger] carries(all, k, name@) ==> k == at,
                None => forall|k: int| k < i ==> !#[trigger] carries(all, k, name@),
            },
        decreases projects.len() - i,
    {
        proof {
            assert(all[i as int] == projects@[i as int]@);
        }
        let named: bool = match projects[i].name() {
            Some(own) => same_text(own, name),
            None => false,
        };
        if named {
            proof {
                assert(carries(all, i as int, name@));
            }
            match seen {
                Some(at) => {
                    proof {
                        reveal(is_shared);
                        assert(carries(all, at as int, name@) && carries(all, i as int, name@));
                        if is_unique(all, name@) {
                            assert(false);
                        }
                    }
                    return Carriers::Shared;
                },
                None => {
                    seen = Some(i);
                },
            }
        }
        i = i + 1;
    }
    match seen {
        Some(at) => Carriers::Unique(at),
        None => Carriers::Nobody,
    }
}

/// Whether exactly one project carries `name`.
pub fn is_unique_name(projects: &[&Project], name: &str) -> (unique: bool)
    ensures
        unique == is_unique(facts(projects@), name@),
{
    match resolve(projects, name) {
        Carriers::Unique(_) => true,
        _ => false,
    }
}

/// Whether several projects carry `name`.
pub fn is_shared_name(projects: &[&Project], name: &str) -> (shared: bool)
    ensures
        shared == is_shared(facts(projects@), name@),
{
    match resolve(projects, name) {
        Carriers::Shared => true,
        _ => false,
    }
}

/// The smallest name that some project depends on and several carry.
pub open spec fn is_first_ambiguity(projects: Seq<ProjectView>, name: Seq<char>) -> bool {
    is_ambiguous(projects, name) && forall|other: Seq<char>| #[trigger]
        is_ambiguous(projects, other) ==> text::text_le(name, other)
}

/// Every name that some project depends on.
fn referenced_names(projects: &[&Project]) -> (names: Vec<String>)
    requires
        all_well_formed(projects@),
    ensures
        forall|name: Seq<char>|
            #[trigger] text_set::text_set(names@).contains(name) <==> is_referenced(
                facts(projects@),
                name,
            ),
{
    let ghost all = facts(projects@);
    let mut names: Vec<String> = Vec::new();
    let mut i: usize = 0;
    while i < projects.len()
        invariant
            i <= projects.len(),
            all_well_formed(projects@),
            all == facts(projects@),
            text_set::all_different(names@),
            forall|name: Seq<char>|
                #[trigger] text_set::text_set(names@).contains(name) <==> exists|k: int|
                    0 <= k < i && (#[trigger] all[k]).dependencies.contains(name),
        decreases projects.len() - i,
    {
        proof {
            assert(projects@[i as int].well_formed());
            assert(all[i as int] == projects@[i as int]@);
        }
        let deps: &Vec<String> = projects[i].dependencies();
        let ghost before = text_set::text_set(names@);
        let mut d: usize = 0;
        proof {
            assert(before.union(text_set::text_set(deps@.take(0))) =~= before);
        }
        while d < deps.len()
            invariant
                d <= deps.len(),
                text_set::all_different(names@),
                text_set::text_set(names@) == before.union(
                    text_set::text_set(deps@.take(d as int)),
                ),
            decreases deps.len() - d,
        {
            text_set::insert_text(&mut names, deps[d].as_str());
            proof {
                text_set::text_set_take(deps@, d as int);
                assert(text_set::text_set(names@) =~= before.union(
                    text_set::text_set(deps@.take(d as int + 1)),
                ));
            }
            d = d + 1;
        }
        proof {
            assert(deps@.take(d as int) =~= deps@);
            assert forall|name: Seq<char>|
                #[trigger] text_set::text_set(names@).contains(name) <==> exists|k: int|
                    0 <= k < i + 1 && (#[trigger] all[k]).dependencies.contains(name) by {
                if all[i as int].dependencies.contains(name) {
                    assert(text_set::text_set(names@).contains(name));
                }
                if before.contains(name) {
                    let k = choose|k: int|
                        0 <= k < i && (#[trigger] all[k]).dependencies.contains(name);
                    assert(all[k].dependencies.contains(name));
                }
            }
        }
        i = i + 1;
    }
    names
}

/// The smallest ambiguous dependency name.
pub fn first_ambiguity(projects: &[&Project]) -> (found: Option<String>)
    requires
        all_well_formed(projects@),
    ensures
        match found {
            Some(name) => is_first_ambiguity(facts(projects@), name@),
            None => forall|name: Seq<char>| !#[trigger] is_ambiguous(facts(projects@), name),
        },
{
    let ghost all = facts(projects@);
    let names: Vec<String> = referenced_names(projects);
    let mut best: Option<String> = None;
    let mut i: usize = 0;
    while i < names.len()
        invariant
            i <= names.len(),
            all == facts(projects@),
            forall|name: Seq<char>|
                #[trigger] text_set::text_set(names@).contains(name) <==> is_referenced(all, name),
            match best {
                Some(name) => is_ambiguous(all, name@) && forall|k: int|
                    0 <= k < i && is_shared(all, (#[trigger] names@[k])@) ==> text::text_le(
                        name@,
                        names@[k]@,
                    ),
                None => forall|k: int| 0 <= k < i ==> !is_shared(all, (#[trigger] names@[k])@),
            },
        decreases names.len() - i,
    {
        proof {
            assert(text_set::text_set(names@).contains(names@[i as int]@));
        }
        if is_shared_name(projects, names[i].as_str()) {
            let better: bool = match &best {
                Some(name) => text::text_before(names[i].as_str(), name.as_str()),
                None => true,
            };
            if better {
                let ghost earlier = best;
                best = Some(names[i].clone());
                proof {
                    let name = names@[i as int]@;
                    assert forall|k: int|
                        0 <= k < i && is_shared(all, (#[trigger] names@[k])@) implies text::text_le(
                        name,
                        names@[k]@,
                    ) by {
                        if earlier->0@ != names@[k]@ {
                            text::text_lt_transitive(name, earlier->0@, names@[k]@);
                        }
                    }
                }
            } else {
                proof {
                    text::text_lt_total(best->0@, names@[i as int]@);
                }
            }
        }
        i = i + 1;
    }
    proof {
        assert forall|other: Seq<char>| #[trigger] is_ambiguous(all, other) implies exists|k: int|
            0 <= k < names@.len() && (#[trigger] names@[k])@ == other by {
            assert(text_set::text_set(names@).contains(other));
        }
    }
    best
}

/// The relative paths of the carriers of a name, in project order.
pub open spec fn carrier_paths(projects: Seq<ProjectView>, name: Seq<char>) -> Seq<Seq<char>>
    decreases projects.len(),
{
    if projects.len() == 0 {
        Seq::empty()
    } else if projects.last().name == Some(name) {
        carrier_paths(projects.drop_last(), name).push(projects.last().relative_path)
    } else {
        carrier_paths(projects.drop_last(), name)
    }
}

/// `paths` never steps back in the canonical order.
pub open spec fn paths_in_order(list: Seq<Seq<char>>) -> bool {
    forall|i: int, j: int|
        0 <= i < j < list.len() ==> !paths::path_lt(#[trigger] list[j], #[trigger] list[i])
}

/// The relative paths of all carriers of `name`, in canonical order.
pub fn candidates(projects: &[&Project], name: &str) -> (sorted: Vec<String>)
    ensures
        paths_in_order(paths::views(sorted@)),
        paths::views(sorted@).to_multiset() == carrier_paths(
            facts(projects@),
            name@,
        ).to_multiset(),
{
    let ghost all = facts(projects@);
    let mut found: Vec<String> = Vec::new();
    let mut i: usize = 0;
    proof {
        assert(all.take(0) =~= Seq::<ProjectView>::empty());
        assert(paths::views(found@) =~= carrier_paths(all.take(0), name@));
    }
    while i < projects.len()
        invariant
            i <= projects.len(),
            all == facts(projects@),
            paths::views(found@) == carrier_paths(all.take(i as int), name@),
        decreases projects.len() - i,
    {
        proof {
            assert(all[i as int] == projects@[i as int]@);
            assert(all.take(i as int + 1).drop_last() =~= all.take(i as int));
            assert(all.take(i as int + 1).last() == all[i as int]);
        }
        let named: bool = match projects[i].name() {
            Some(own) => same_text(own, name),
            None => false,
        };
        let ghost before = paths::views(found@);
        if named {
            found.push(projects[i].relative_path().to_string());
            proof {
                assert(paths::views(found@) =~= before.push(all[i as int].relative_path));
            }
        }
        i = i + 1;
    }
    proof {
        assert(all.take(i as int) =~= all);
    }
    paths::sorted_paths(&found)
}

/// The candidates for a name are the relative paths of the projects that carry
/// it, in their order.
pub proof fn candidates_are_the_carriers(projects: Seq<ProjectView>, name: Seq<char>)
    ensures
        carrier_paths(projects, name) == projects.filter(
            |project: ProjectView| project.name == Some(name),
        ).map_values(|project: ProjectView| project.relative_path),
    decreases projects.len(),
{
    let carries_it = |project: ProjectView| project.name == Some(name);
    let path = |project: ProjectView| project.relative_path;
    reveal(Seq::filter);
    if projects.len() == 0 {
        assert(projects.filter(carries_it).map_values(path) =~= Seq::empty());
    } else {
        let earlier = projects.drop_last();
        candidates_are_the_carriers(earlier, name);
        if carries_it(projects.last()) {
            assert(earlier.filter(carries_it).push(projects.last()).map_values(path)
                =~= earlier.filter(carries_it).map_values(path).push(
                projects.last().relative_path,
            ));
        }
    }
}

/// The name that is reported as ambiguous is one that a project depends on and
/// that two projects carry, and no such name comes before it.
pub proof fn the_first_ambiguous_name_is_reported(
    projects: Seq<ProjectView>,
    name: Seq<char>,
    other: Seq<char>,
)
    requires
        is_first_ambiguity(projects, name),
    ensures
        exists|i: int|
            0 <= i < projects.len() && (#[trigger] projects[i]).dependencies.contains(name),
        exists|i: int, j: int|
            0 <= i < j < projects.len() && (#[trigger] projects[i]).name == Some(name) && (
            #[trigger] projects[j]).name == Some(name),
        (exists|i: int|
            0 <= i < projects.len() && (#[trigger] projects[i]).dependencies.contains(other)) && (
        exists|i: int, j: int|
            0 <= i < j < projects.len() && (#[trigger] projects[i]).name == Some(other) && (
            #[trigger] projects[j]).name == Some(other)) ==> name == other || text::text_lt(
            name,
            other,
        ),
{
    reveal(is_shared);
    let (i, j) = choose|i: int, j: int|
        i < j && #[trigger] carries(projects, i, name) && #[trigger] carries(projects, j, name);
    assert(projects[i].name == Some(name) && projects[j].name == Some(name));
    if exists|i: int, j: int|
        0 <= i < j < projects.len() && (#[trigger] projects[i]).name == Some(other) && (
        #[trigger] projects[j]).name == Some(other) {
        let (i, j) = choose|i: int, j: int|
            0 <= i < j < projects.len() && (#[trigger] projects[i]).name == Some(other) && (
            #[trigger] projects[j]).name == Some(other);
        assert(carries(projects, i, other) && carries(projects, j, other));
        assert(is_shared(projects, other));
        if is_referenced(projects, other) {
            assert(is_ambiguous(projects, other));
        }
    }
}

} // verus!
