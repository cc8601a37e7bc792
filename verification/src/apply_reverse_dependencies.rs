//! Reverse-dependency expansion of the scheduled updates: a project that
//! depends on an updated one is updated too.

use crate::ordering;
use crate::paths;
use crate::project::{Project, ProjectView};
use crate::project_names;
use crate::text;
use crate::text::{joined_text, joined_text3, text_before};
use crate::text_set;
use crate::update_map::{ChangePackResultLog, EntryView, LogView, UpdateMap};
use crate::update_type::UpdateType;
use vstd::prelude::*;
use vstd::string::*;

verus! {

/// Why the expansion was refused.
#[derive(Debug)]
pub enum ReverseDependencyError {
    /// Several projects carry a name that some project depends on.
    Ambiguous { name: String, candidates: Vec<String> },
    /// A project lies outside the repository.
    OutsideRepository { path: String },
}

/// An update that the expansion scheduled, with its note.
#[derive(Debug)]
pub struct GeneratedUpdate {
    pub path: String,
    pub note: String,
}

/// The components of a project's path below the repository root.
pub open spec fn place(project: ProjectView, root: Seq<char>) -> Seq<Seq<char>> {
    paths::components(project.path).skip(paths::components(root).len() as int)
}

/// An update of the project named `trigger` reaches project `i`.
pub open spec fn triggers(projects: Seq<ProjectView>, trigger: Seq<char>, i: int) -> bool {
    0 <= i < projects.len() && projects[i].dependencies.contains(trigger)
        && project_names::is_unique(projects, trigger)
}

/// The name under which a reached project reaches others: its own where no
/// other project carries it, and `unknown` for a project without a name.
pub open spec fn passes_on(projects: Seq<ProjectView>, i: int) -> Option<Seq<char>> {
    match projects[i].name {
        Some(name) => if project_names::is_unique(projects, name) {
            Some(name)
        } else {
            None
        },
        None => Some("unknown"@),
    }
}

/// Project `i` has a name of its own.
pub open spec fn has_own_name(projects: Seq<ProjectView>, i: int) -> bool {
    0 <= i < projects.len() && projects[i].name is Some && project_names::is_unique(
        projects,
        projects[i].name->0,
    )
}

/// The expansion starts from project `i`: it has a name of its own, an update
/// of it is scheduled and may seed the expansion, and no later project with a
/// name of its own lies at the same place.
pub open spec fn is_seed(
    projects: Seq<ProjectView>,
    root: Seq<char>,
    scheduled: Set<Seq<Seq<char>>>,
    seeds: Set<Seq<Seq<char>>>,
    i: int,
) -> bool {
    &&& has_own_name(projects, i)
    &&& scheduled.contains(place(projects[i], root))
    &&& seeds.contains(place(projects[i], root))
    &&& forall|j: int|
        i < j && #[trigger] has_own_name(projects, j) ==> place(projects[j], root) != place(
            projects[i],
            root,
        )
}

/// The expansion starts with `name`.
pub open spec fn is_seed_name(
    projects: Seq<ProjectView>,
    root: Seq<char>,
    scheduled: Set<Seq<Seq<char>>>,
    seeds: Set<Seq<Seq<char>>>,
    name: Seq<char>,
) -> bool {
    exists|i: int| #[trigger]
        is_seed(projects, root, scheduled, seeds, i) && projects[i].name == Some(name)
}

/// Project `i` lies at `at` and is reached through the name `queue[m]`.
pub open spec fn is_hit(
    projects: Seq<ProjectView>,
    root: Seq<char>,
    queue: Seq<Seq<char>>,
    at: Seq<Seq<char>>,
    i: int,
    m: int,
) -> bool {
    0 <= m < queue.len() && triggers(projects, queue[m], i) && place(projects[i], root) == at
}

/// Some project at `at` is reached through a name in `queue`.
pub open spec fn is_reached(
    projects: Seq<ProjectView>,
    root: Seq<char>,
    queue: Seq<Seq<char>>,
    at: Seq<Seq<char>>,
) -> bool {
    exists|i: int, m: int| #[trigger] is_hit(projects, root, queue, at, i, m)
}

/// `queue[k]` is there because a project reached earlier, outside the seeds,
/// passes it on.
pub open spec fn is_passed_on(
    projects: Seq<ProjectView>,
    root: Seq<char>,
    seeds: Set<Seq<Seq<char>>>,
    queue: Seq<Seq<char>>,
    k: int,
) -> bool {
    exists|i: int, m: int|
        0 <= m < k && #[trigger] is_hit(projects, root, queue, place(projects[i], root), i, m)
            && !seeds.contains(place(projects[i], root)) && passes_on(projects, i) == Some(queue[k])
}

/// `queue` lists the names that the expansion goes through: the seed names,
/// then what reached projects pass on, each newly reached place once.
pub open spec fn is_expansion(
    projects: Seq<ProjectView>,
    root: Seq<char>,
    scheduled: Set<Seq<Seq<char>>>,
    seeds: Set<Seq<Seq<char>>>,
    queue: Seq<Seq<char>>,
) -> bool {
    &&& forall|name: Seq<char>| #[trigger]
        is_seed_name(projects, root, scheduled, seeds, name) ==> queue.contains(name)
    &&& forall|k: int|
        0 <= k < queue.len() ==> is_seed_name(
            projects,
            root,
            scheduled,
            seeds,
            #[trigger] queue[k],
        ) || is_passed_on(projects, root, seeds, queue, k)
    &&& forall|at: Seq<Seq<char>>| #[trigger]
        is_reached(projects, root, queue, at) && !seeds.contains(at) ==> exists|i: int, m: int|
         #[trigger]
            is_hit(projects, root, queue, at, i, m) && (passes_on(projects, i) matches Some(w)
                ==> queue.contains(w))
}

/// The note of a generated update.
pub open spec fn dependency_note(trigger: Seq<char>) -> Seq<char> {
    "Auto-update: depends on '"@ + trigger + "' via a local workspace dependency"@
}

/// The only log of the update is a patch, noted under the name.
pub open spec fn is_noted(entry: EntryView, trigger: Seq<char>) -> bool {
    entry.logs == seq![
        LogView { update_type: UpdateType::Patch, note: dependency_note(trigger) },
    ]
}

/// No name through which a project at `at` is reached comes before `queue[m]`.
pub open spec fn is_smallest_hit(
    projects: Seq<ProjectView>,
    root: Seq<char>,
    queue: Seq<Seq<char>>,
    at: Seq<Seq<char>>,
    m: int,
) -> bool {
    forall|i: int, n: int| #[trigger]
        is_hit(projects, root, queue, at, i, n) ==> text::text_le(queue[m], queue[n])
}

/// The update generated at `at`: a patch, noted under the smallest name
/// through which a project there is reached.
pub open spec fn is_generated(
    projects: Seq<ProjectView>,
    root: Seq<char>,
    queue: Seq<Seq<char>>,
    at: Seq<Seq<char>>,
    entry: EntryView,
) -> bool {
    &&& exists|i: int, m: int| #[trigger]
        is_hit(projects, root, queue, at, i, m) && paths::below(projects[i].path, root) == Some(
            entry.path,
        )
    &&& exists|i: int, m: int| #[trigger]
        is_hit(projects, root, queue, at, i, m) && is_noted(entry, queue[m]) && is_smallest_hit(
            projects,
            root,
            queue,
            at,
            m,
        )
    &&& entry.update_type == UpdateType::Patch
}

/// `after` is `before` with an update generated at each reached place that had
/// none.
pub open spec fn is_expanded(
    projects: Seq<ProjectView>,
    root: Seq<char>,
    queue: Seq<Seq<char>>,
    before: Map<Seq<Seq<char>>, EntryView>,
    after: Map<Seq<Seq<char>>, EntryView>,
) -> bool {
    &&& forall|at: Seq<Seq<char>>|
        #[trigger] after.contains_key(at) <==> before.contains_key(at) || is_reached(
            projects,
            root,
            queue,
            at,
        )
    &&& forall|at: Seq<Seq<char>>| #[trigger]
        before.contains_key(at) ==> after[at] == before[at]
    &&& forall|at: Seq<Seq<char>>| #[trigger]
        after.contains_key(at) && !before.contains_key(at) ==> is_generated(
            projects,
            root,
            queue,
            at,
            after[at],
        )
}

/// A place that the expansion adds, and the smallest name that reached it.
struct Addition {
    path: String,
    trigger: String,
}

/// The running state of an expansion.
struct Expansion {
    to_process: Vec<String>,
    reached: Vec<String>,
    additions: Vec<Addition>,
}

/// Hit `h` is on a project at `at`.
spec fn hit_at(
    projects: Seq<ProjectView>,
    root: Seq<char>,
    hits: Seq<(int, int)>,
    h: int,
    at: Seq<Seq<char>>,
) -> bool {
    0 <= h < hits.len() && place(projects[hits[h].0], root) == at
}

/// Some hit is on a project at `at`.
spec fn is_touched(
    projects: Seq<ProjectView>,
    root: Seq<char>,
    hits: Seq<(int, int)>,
    at: Seq<Seq<char>>,
) -> bool {
    exists|h: int| #[trigger] hit_at(projects, root, hits, h, at)
}

/// Some addition is for `at`.
spec fn is_added(additions: Seq<Addition>, at: Seq<Seq<char>>) -> bool {
    exists|a: int|
        0 <= a < additions.len() && paths::components((#[trigger] additions[a]).path@) == at
}

/// Every hit is a real one.
spec fn hits_are_real(
    projects: Seq<ProjectView>,
    root: Seq<char>,
    queue: Seq<Seq<char>>,
    hits: Seq<(int, int)>,
) -> bool {
    forall|h: int|
        0 <= h < hits.len() ==> 0 <= (#[trigger] hits[h]).1 < queue.len() && triggers(
            projects,
            queue[hits[h].1],
            hits[h].0,
        )
}

/// An addition's path and trigger come from hits at its place, and no hit
/// there has a smaller name.
spec fn is_sound_addition(
    projects: Seq<ProjectView>,
    root: Seq<char>,
    queue: Seq<Seq<char>>,
    hits: Seq<(int, int)>,
    addition: Addition,
) -> bool {
    let at = paths::components(addition.path@);
    &&& exists|h: int| #[trigger]
        hit_at(projects, root, hits, h, at) && paths::below(projects[hits[h].0].path, root) == Some(
            addition.path@,
        )
    &&& exists|h: int| #[trigger]
        hit_at(projects, root, hits, h, at) && addition.trigger@ == queue[hits[h].1]
    &&& forall|h: int| #[trigger]
        hit_at(projects, root, hits, h, at) ==> text::text_le(addition.trigger@, queue[hits[h].1])
}

/// `queue[k]` was passed on by an earlier hit outside the seeds.
spec fn has_source(
    projects: Seq<ProjectView>,
    root: Seq<char>,
    seeds: Set<Seq<Seq<char>>>,
    queue: Seq<Seq<char>>,
    hits: Seq<(int, int)>,
    k: int,
) -> bool {
    exists|h: int|
        0 <= h < hits.len() && (#[trigger] hits[h]).1 < k && !seeds.contains(
            place(projects[hits[h].0], root),
        ) && passes_on(projects, hits[h].0) == Some(queue[k])
}

/// Some hit at `at` has passed its name on, or has none to pass on.
spec fn is_passed(
    projects: Seq<ProjectView>,
    root: Seq<char>,
    queue: Seq<Seq<char>>,
    hits: Seq<(int, int)>,
    at: Seq<Seq<char>>,
) -> bool {
    exists|h: int| #[trigger]
        hit_at(projects, root, hits, h, at) && (passes_on(projects, hits[h].0) matches Some(w)
            ==> queue.contains(w))
}

impl Expansion {
    spec fn queue(&self) -> Seq<Seq<char>> {
        paths::views(self.to_process@)
    }

    #[verifier::opaque]
    spec fn holds(
        &self,
        projects: Seq<ProjectView>,
        root: Seq<char>,
        scheduled: Set<Seq<Seq<char>>>,
        seeds: Set<Seq<Seq<char>>>,
        hits: Seq<(int, int)>,
    ) -> bool {
        &&& hits_are_real(projects, root, self.queue(), hits)
        &&& forall|at: Seq<Seq<char>>|
            #[trigger] paths::place_set(self.reached@).contains(at) <==> seeds.contains(at)
                || is_touched(projects, root, hits, at)
        &&& forall|at: Seq<Seq<char>>|
            #[trigger] is_added(self.additions@, at) <==> is_touched(projects, root, hits, at)
                && !scheduled.contains(at)
        &&& forall|a: int, b: int|
            0 <= a < b < self.additions@.len() ==> paths::components(
                (#[trigger] self.additions@[a]).path@,
            ) != paths::components((#[trigger] self.additions@[b]).path@)
        &&& forall|a: int|
            0 <= a < self.additions@.len() ==> is_sound_addition(
                projects,
                root,
                self.queue(),
                hits,
                #[trigger] self.additions@[a],
            )
        &&& forall|k: int|
            0 <= k < self.queue().len() ==> is_seed_name(
                projects,
                root,
                scheduled,
                seeds,
                #[trigger] self.queue()[k],
            ) || has_source(projects, root, seeds, self.queue(), hits, k)
        &&& forall|at: Seq<Seq<char>>| #[trigger]
            is_touched(projects, root, hits, at) && !seeds.contains(at) ==> is_passed(
                projects,
                root,
                self.queue(),
                hits,
                at,
            )
    }

    /// Takes one hit in: project `i`, at `path`, reached through the name at
    /// `m` in the queue.
    fn reach(
        &mut self,
        updates: &UpdateMap,
        path: &str,
        name: &Option<String>,
        m: usize,
        Ghost(i): Ghost<int>,
        Ghost(projects): Ghost<Seq<ProjectView>>,
        Ghost(root): Ghost<Seq<char>>,
        Ghost(seeds): Ghost<Set<Seq<Seq<char>>>>,
        Ghost(hits): Ghost<Seq<(int, int)>>,
    ) -> (enqueued: bool)
        requires
            updates.well_formed(),
            old(self).holds(projects, root, updates@.dom(), seeds, hits),
            m < old(self).to_process@.len(),
            triggers(projects, old(self).queue()[m as int], i),
            paths::below(projects[i].path, root) == Some(path@),
            paths::components(path@) == place(projects[i], root),
            text_set::optional_view(*name) == passes_on(projects, i),
        ensures
            final(self).holds(projects, root, updates@.dom(), seeds, hits.push((i, m as int))),
            final(self).queue().len() == old(self).queue().len() + (if enqueued {
                1int
            } else {
                0
            }),
            final(self).queue().take(old(self).queue().len() as int) == old(self).queue(),
            enqueued ==> !paths::place_set(old(self).reached@).contains(place(projects[i], root)),
            paths::place_set(final(self).reached@) == paths::place_set(old(self).reached@).insert(
                place(projects[i], root),
            ),
    {
        proof {
            reveal(Expansion::holds);
        }
        let ghost before = *self;
        let ghost scheduled = updates@.dom();
        let ghost at = place(projects[i], root);
        let ghost queue = self.queue();
        let ghost after = hits.push((i, m as int));
        let newly: bool = !paths::holds_path(&self.reached, path);
        if newly {
            let ghost old_reached = self.reached@;
            self.reached.push(path.to_string());
            proof {
                paths::place_set_push(old_reached, self.reached@.last());
                assert(self.reached@ =~= old_reached.push(self.reached@.last()));
            }
        } else {
            proof {
                assert(paths::place_set(self.reached@) =~= paths::place_set(self.reached@).insert(at));
            }
        }
        let mut enqueued: bool = false;
        if newly {
            match name {
                Some(own) => {
                    self.to_process.push(own.clone());
                    enqueued = true;
                },
                None => {},
            }
        }
        let ghost longer = self.queue();
        proof {
            assert(longer.take(queue.len() as int) =~= queue);
            lemma_hit_more(projects, root, hits, i, m as int);
        }
        if !updates.contains(path) {
            add_place(
                &mut self.additions,
                path,
                self.to_process[m].as_str(),
                Ghost(i),
                Ghost(m as int),
                Ghost(projects),
                Ghost(root),
                Ghost(queue),
                Ghost(longer),
                Ghost(hits),
            );
            proof {
                assert forall|x: Seq<Seq<char>>|
                    #[trigger] is_added(self.additions@, x) <==> is_touched(
                        projects,
                        root,
                        after,
                        x,
                    ) && !scheduled.contains(x) by {
                    assert(is_added(before.additions@, x) <==> is_touched(projects, root, hits, x)
                        && !scheduled.contains(x));
                }
            }
        } else {
            proof {
                assert forall|a: int| 0 <= a < self.additions@.len() implies is_sound_addition(
                    projects,
                    root,
                    longer,
                    after,
                    #[trigger] self.additions@[a],
                ) by {
                    assert(is_added(
                        self.additions@,
                        paths::components(self.additions@[a].path@),
                    ));
                    lemma_still_sound(
                        projects,
                        root,
                        queue,
                        longer,
                        hits,
                        i,
                        m as int,
                        self.additions@[a],
                    );
                }
                assert forall|x: Seq<Seq<char>>|
                    #[trigger] is_added(self.additions@, x) <==> is_touched(
                        projects,
                        root,
                        after,
                        x,
                    ) && !scheduled.contains(x) by {}
            }
        }
        proof {
            assert(self.queue()[m as int] == queue[m as int]);
            assert(hits_are_real(projects, root, longer, after)) by {
                assert forall|h: int| 0 <= h < after.len() implies 0 <= (#[trigger] after[h]).1
                    < longer.len() && triggers(projects, longer[after[h].1], after[h].0) by {
                    if h < hits.len() {
                        assert(after[h] == hits[h]);
                        assert(longer[hits[h].1] == queue[hits[h].1]);
                    }
                }
            }
            assert forall|x: Seq<Seq<char>>|
                #[trigger] paths::place_set(self.reached@).contains(x) <==> seeds.contains(x)
                    || is_touched(projects, root, after, x) by {
                assert(paths::place_set(before.reached@).contains(x) <==> seeds.contains(x)
                    || is_touched(projects, root, hits, x));
            }
            assert forall|k: int| 0 <= k < longer.len() implies is_seed_name(
                projects,
                root,
                scheduled,
                seeds,
                #[trigger] longer[k],
            ) || has_source(projects, root, seeds, longer, after, k) by {
                if k < queue.len() {
                    assert(longer[k] == queue[k]);
                    if has_source(projects, root, seeds, queue, hits, k) {
                        let h = choose|h: int|
                            0 <= h < hits.len() && (#[trigger] hits[h]).1 < k && !seeds.contains(
                                place(projects[hits[h].0], root),
                            ) && passes_on(projects, hits[h].0) == Some(queue[k]);
                        assert(after[h] == hits[h]);
                    }
                } else {
                    assert(after[hits.len() as int] == (i, m as int));
                    assert(!seeds.contains(at));
                }
            }
            assert forall|x: Seq<Seq<char>>| #[trigger]
                is_touched(projects, root, after, x) && !seeds.contains(x) implies is_passed(
                projects,
                root,
                longer,
                after,
                x,
            ) by {
                if is_touched(projects, root, hits, x) {
                    assert(is_passed(projects, root, queue, hits, x));
                    let h = choose|h: int| #[trigger]
                        hit_at(projects, root, hits, h, x) && (passes_on(
                            projects,
                            hits[h].0,
                        ) matches Some(w) ==> queue.contains(w));
                    assert(after[h] == hits[h]);
                    assert(hit_at(projects, root, after, h, x));
                    match passes_on(projects, hits[h].0) {
                        Some(w) => {
                            let q = queue.index_of(w);
                            assert(longer[q] == w);
                        },
                        None => {},
                    }
                } else {
                    assert(x == at);
                    assert(newly);
                    assert(hit_at(projects, root, after, hits.len() as int, x));
                    match passes_on(projects, i) {
                        Some(w) => {
                            assert(longer[queue.len() as int] == w);
                        },
                        None => {},
                    }
                }
            }
        }
        enqueued
    }
}

/// Adds `path` under the name `trigger`, or keeps the smaller name where it is
/// already added.
fn add_place(
    additions: &mut Vec<Addition>,
    path: &str,
    trigger: &str,
    Ghost(i): Ghost<int>,
    Ghost(m): Ghost<int>,
    Ghost(projects): Ghost<Seq<ProjectView>>,
    Ghost(root): Ghost<Seq<char>>,
    Ghost(queue): Ghost<Seq<Seq<char>>>,
    Ghost(longer): Ghost<Seq<Seq<char>>>,
    Ghost(hits): Ghost<Seq<(int, int)>>,
)
    requires
        hits_are_real(projects, root, queue, hits),
        0 <= m < queue.len() <= longer.len(),
        longer.take(queue.len() as int) == queue,
        trigger@ == queue[m],
        paths::below(projects[i].path, root) == Some(path@),
        paths::components(path@) == place(projects[i], root),
        is_touched(projects, root, hits, place(projects[i], root)) ==> is_added(
            old(additions)@,
            place(projects[i], root),
        ),
        forall|a: int, b: int|
            0 <= a < b < old(additions)@.len() ==> paths::components(
                (#[trigger] old(additions)@[a]).path@,
            ) != paths::components((#[trigger] old(additions)@[b]).path@),
        forall|a: int|
            0 <= a < old(additions)@.len() ==> is_sound_addition(
                projects,
                root,
                queue,
                hits,
                #[trigger] old(additions)@[a],
            ),
    ensures
        forall|at: Seq<Seq<char>>|
            #[trigger] is_added(final(additions)@, at) <==> is_added(old(additions)@, at) || at
                == place(projects[i], root),
        forall|a: int, b: int|
            0 <= a < b < final(additions)@.len() ==> paths::components(
                (#[trigger] final(additions)@[a]).path@,
            ) != paths::components((#[trigger] final(additions)@[b]).path@),
        forall|a: int|
            0 <= a < final(additions)@.len() ==> is_sound_addition(
                projects,
                root,
                longer,
                hits.push((i, m)),
                #[trigger] final(additions)@[a],
            ),
{
    let ghost before = additions@;
    let ghost at = place(projects[i], root);
    let ghost after = hits.push((i, m));
    proof {
        lemma_hit_more(projects, root, hits, i, m);
        assert(longer[m] == queue[m]);
        assert(after[hits.len() as int] == (i, m));
        assert(hit_at(projects, root, after, hits.len() as int, at));
    }
    match find_addition(additions, path) {
        Some(a) => {
            if text_before(trigger, additions[a].trigger.as_str()) {
                let same_place: String = additions[a].path.clone();
                additions.set(a, Addition { path: same_place, trigger: trigger.to_string() });
                proof {
                    let old_one = before[a as int];
                    let new_one = additions@[a as int];
                    let place_path = old_one.path;
                    assert(is_sound_addition(projects, root, queue, hits, old_one));
                    assert(new_one.path@ == old_one.path@);
                    let h = choose|h: int| #[trigger]
                        hit_at(projects, root, hits, h, at) && paths::below(
                            projects[hits[h].0].path,
                            root,
                        ) == Some(old_one.path@);
                    assert(after[h] == hits[h]);
                    assert(hit_at(projects, root, after, h, at));
                    assert forall|h2: int| #[trigger]
                        hit_at(projects, root, after, h2, at) implies text::text_le(
                        new_one.trigger@,
                        longer[after[h2].1],
                    ) by {
                        if h2 < hits.len() {
                            assert(hit_at(projects, root, hits, h2, at));
                            assert(after[h2] == hits[h2]);
                            assert(longer[hits[h2].1] == queue[hits[h2].1]);
                            if old_one.trigger@ != queue[hits[h2].1] {
                                text::text_lt_transitive(
                                    new_one.trigger@,
                                    old_one.trigger@,
                                    queue[hits[h2].1],
                                );
                            }
                        }
                    }
                    assert(is_sound_addition(projects, root, longer, after, new_one));
                }
            } else {
                proof {
                    text::text_lt_total(trigger@, additions@[a as int].trigger@);
                    lemma_still_sound(
                        projects,
                        root,
                        queue,
                        longer,
                        hits,
                        i,
                        m,
                        additions@[a as int],
                    );
                }
            }
            proof {
                assert forall|b: int| 0 <= b < additions@.len() implies is_sound_addition(
                    projects,
                    root,
                    longer,
                    after,
                    #[trigger] additions@[b],
                ) by {
                    if b != a {
                        assert(additions@[b] == before[b]);
                        assert(paths::components(before[b].path@) != at);
                        lemma_still_sound(projects, root, queue, longer, hits, i, m, before[b]);
                    }
                }
                assert forall|x: Seq<Seq<char>>|
                    #[trigger] is_added(additions@, x) <==> is_added(before, x) || x == at by {
                    if is_added(before, x) {
                        let b = choose|b: int|
                            0 <= b < before.len() && paths::components((#[trigger] before[b]).path@)
                                == x;
                        assert(additions@[b].path@ == before[b].path@);
                    }
                    if is_added(additions@, x) {
                        let b = choose|b: int|
                            0 <= b < additions@.len() && paths::components(
                                (#[trigger] additions@[b]).path@,
                            ) == x;
                        assert(additions@[b].path@ == before[b].path@);
                    }
                    assert(additions@[a as int].path@ == before[a as int].path@);
                }
                assert forall|x: int, y: int| 0 <= x < y < additions@.len() implies paths::components(
                    (#[trigger] additions@[x]).path@,
                ) != paths::components((#[trigger] additions@[y]).path@) by {
                    assert(additions@[x].path@ == before[x].path@);
                    assert(additions@[y].path@ == before[y].path@);
                }
            }
        },
        None => {
            additions.push(Addition { path: path.to_string(), trigger: trigger.to_string() });
            proof {
                let last = before.len() as int;
                assert forall|b: int| 0 <= b < additions@.len() implies is_sound_addition(
                    projects,
                    root,
                    longer,
                    after,
                    #[trigger] additions@[b],
                ) by {
                    if b < last {
                        assert(additions@[b] == before[b]);
                        assert(paths::components(before[b].path@) != at) by {
                            if paths::components(before[b].path@) == at {
                                assert(is_added(before, at));
                            }
                        }
                        lemma_still_sound(projects, root, queue, longer, hits, i, m, before[b]);
                    } else {
                        let only = hits.len() as int;
                        assert forall|h2: int| #[trigger]
                            hit_at(projects, root, after, h2, at) implies h2 == only by {
                            if h2 < only {
                                assert(hit_at(projects, root, hits, h2, at));
                                assert(is_touched(projects, root, hits, at));
                            }
                        }
                        assert(additions@[b].path@ == path@ && additions@[b].trigger@ == trigger@);
                        assert(after[only] == (i, m));
                        assert(hit_at(projects, root, after, only, at));
                    }
                }
                assert forall|x: Seq<Seq<char>>|
                    #[trigger] is_added(additions@, x) <==> is_added(before, x) || x == at by {
                    if is_added(before, x) {
                        let b = choose|b: int|
                            0 <= b < before.len() && paths::components((#[trigger] before[b]).path@)
                                == x;
                        assert(additions@[b] == before[b]);
                    }
                    if is_added(additions@, x) {
                        let b = choose|b: int|
                            0 <= b < additions@.len() && paths::components(
                                (#[trigger] additions@[b]).path@,
                            ) == x;
                        if b < last {
                            assert(additions@[b] == before[b]);
                        }
                    }
                    assert(additions@[last].path@ == path@);
                }
                assert forall|x: int, y: int| 0 <= x < y < additions@.len() implies paths::components(
                    (#[trigger] additions@[x]).path@,
                ) != paths::components((#[trigger] additions@[y]).path@) by {
                    assert(additions@[x] == before[x]);
                    if y == last {
                        assert(!is_added(before, at));
                    } else {
                        assert(additions@[y] == before[y]);
                    }
                }
            }
        },
    }
}

/// An addition stays sound under one more hit that is elsewhere or has no
/// smaller name.
proof fn lemma_still_sound(
    projects: Seq<ProjectView>,
    root: Seq<char>,
    queue: Seq<Seq<char>>,
    longer: Seq<Seq<char>>,
    hits: Seq<(int, int)>,
    i: int,
    m: int,
    addition: Addition,
)
    requires
        hits_are_real(projects, root, queue, hits),
        is_sound_addition(projects, root, queue, hits, addition),
        0 <= m < queue.len() <= longer.len(),
        longer.take(queue.len() as int) == queue,
        paths::components(addition.path@) != place(projects[i], root) || text::text_le(
            addition.trigger@,
            queue[m],
        ),
    ensures
        is_sound_addition(projects, root, longer, hits.push((i, m)), addition),
{
    let at = paths::components(addition.path@);
    let after = hits.push((i, m));
    lemma_hit_more(projects, root, hits, i, m);
    let h = choose|h: int| #[trigger]
        hit_at(projects, root, hits, h, at) && paths::below(projects[hits[h].0].path, root) == Some(
            addition.path@,
        );
    assert(after[h] == hits[h]);
    assert(hit_at(projects, root, after, h, at));
    let g = choose|g: int| #[trigger]
        hit_at(projects, root, hits, g, at) && addition.trigger@ == queue[hits[g].1];
    assert(after[g] == hits[g]);
    assert(longer[hits[g].1] == queue[hits[g].1]);
    assert(hit_at(projects, root, after, g, at));
    assert forall|h2: int| #[trigger] hit_at(projects, root, after, h2, at) implies text::text_le(
        addition.trigger@,
        longer[after[h2].1],
    ) by {
        if h2 < hits.len() {
            assert(hit_at(projects, root, hits, h2, at));
            assert(after[h2] == hits[h2]);
            assert(longer[hits[h2].1] == queue[hits[h2].1]);
        } else {
            assert(longer[m] == queue[m]);
        }
    }
}

/// The position of the addition for `path`.
fn find_addition(additions: &Vec<Addition>, path: &str) -> (found: Option<usize>)
    ensures
        match found {
            Some(a) => a < additions@.len() && paths::components(additions@[a as int].path@)
                == paths::components(path@),
            None => !is_added(additions@, paths::components(path@)),
        },
{
    let mut a: usize = 0;
    while a < additions.len()
        invariant
            a <= additions.len(),
            forall|b: int|
                0 <= b < a ==> paths::components((#[trigger] additions@[b]).path@)
                    != paths::components(path@),
        decreases additions.len() - a,
    {
        if paths::same_path(additions[a].path.as_str(), path) {
            return Some(a);
        }
        a = a + 1;
    }
    None
}

/// One more hit touches one more place.
proof fn lemma_hit_more(
    projects: Seq<ProjectView>,
    root: Seq<char>,
    hits: Seq<(int, int)>,
    i: int,
    m: int,
)
    ensures
        forall|at: Seq<Seq<char>>| #[trigger]
            is_touched(projects, root, hits.push((i, m)), at) <==> is_touched(
                projects,
                root,
                hits,
                at,
            ) || at == place(projects[i], root),
        forall|h: int, at: Seq<Seq<char>>| #[trigger]
            hit_at(projects, root, hits.push((i, m)), h, at) <==> hit_at(
                projects,
                root,
                hits,
                h,
                at,
            ) || (h == hits.len() && at == place(projects[i], root)),
{
    let after = hits.push((i, m));
    assert forall|h: int, at: Seq<Seq<char>>| #[trigger]
        hit_at(projects, root, after, h, at) <==> hit_at(projects, root, hits, h, at) || (h
            == hits.len() && at == place(projects[i], root)) by {
        if 0 <= h < hits.len() {
            assert(after[h] == hits[h]);
        }
    }
    assert forall|at: Seq<Seq<char>>| #[trigger]
        is_touched(projects, root, after, at) <==> is_touched(projects, root, hits, at) || at
            == place(projects[i], root) by {
        if is_touched(projects, root, hits, at) {
            let h = choose|h: int| #[trigger] hit_at(projects, root, hits, h, at);
            assert(hit_at(projects, root, after, h, at));
        }
        if at == place(projects[i], root) {
            assert(hit_at(projects, root, after, hits.len() as int, at));
        }
    }
}

/// Some project depends on another.
pub open spec fn has_dependencies(projects: Seq<ProjectView>) -> bool {
    exists|i: int, name: Seq<char>|
        0 <= i < projects.len() && #[trigger] projects[i].dependencies.contains(name)
}

fn any_dependencies(projects: &[&Project]) -> (any: bool)
    requires
        project_names::all_well_formed(projects@),
    ensures
        any == has_dependencies(project_names::facts(projects@)),
{
    let ghost all = project_names::facts(projects@);
    let mut i: usize = 0;
    while i < projects.len()
        invariant
            i <= projects.len(),
            project_names::all_well_formed(projects@),
            all == project_names::facts(projects@),
            forall|k: int, name: Seq<char>|
                0 <= k < i ==> !#[trigger] all[k].dependencies.contains(name),
        decreases projects.len() - i,
    {
        proof {
            assert(projects@[i as int].well_formed());
            assert(all[i as int] == projects@[i as int]@);
        }
        let deps: &Vec<String> = projects[i].dependencies();
        if deps.len() > 0 {
            proof {
                assert(text_set::text_set(deps@).contains(deps@[0]@));
                assert(all[i as int].dependencies.contains(deps@[0]@));
            }
            return true;
        }
        i = i + 1;
    }
    false
}

/// Project `i` is the first one outside the repository.
pub open spec fn is_first_outside(projects: Seq<ProjectView>, root: Seq<char>, i: int) -> bool {
    &&& 0 <= i < projects.len()
    &&& !paths::is_under(projects[i].path, root)
    &&& forall|j: int| 0 <= j < i ==> paths::is_under((#[trigger] projects[j]).path, root)
}

/// Every project lies in the repository.
pub open spec fn all_inside(projects: Seq<ProjectView>, root: Seq<char>) -> bool {
    forall|i: int| 0 <= i < projects.len() ==> paths::is_under((#[trigger] projects[i]).path, root)
}

fn relative_paths(projects: &[&Project], root: &str) -> (relative: Result<Vec<String>, usize>)
    ensures
        match relative {
            Ok(list) => list@.len() == projects@.len() && all_inside(
                project_names::facts(projects@),
                root@,
            ) && forall|i: int|
                0 <= i < list@.len() ==> paths::below(
                    project_names::facts(projects@)[i].path,
                    root@,
                ) == Some((#[trigger] list@[i])@) && paths::components(list@[i]@) == place(
                    project_names::facts(projects@)[i],
                    root@,
                ),
            Err(i) => is_first_outside(project_names::facts(projects@), root@, i as int),
        },
{
    let ghost all = project_names::facts(projects@);
    let mut list: Vec<String> = Vec::new();
    let mut i: usize = 0;
    while i < projects.len()
        invariant
            i <= projects.len(),
            list@.len() == i,
            all == project_names::facts(projects@),
            forall|k: int| 0 <= k < i ==> paths::is_under((#[trigger] all[k]).path, root@),
            forall|k: int|
                0 <= k < i ==> paths::below(all[k].path, root@) == Some((#[trigger] list@[k])@)
                    && paths::components(list@[k]@) == place(all[k], root@),
        decreases projects.len() - i,
    {
        proof {
            assert(all[i as int] == projects@[i as int]@);
        }
        match paths::get_relative_path(root, projects[i].path()) {
            Some(text) => {
                list.push(text);
            },
            None => {
                return Err(i);
            },
        }
        i = i + 1;
    }
    Ok(list)
}

fn passing_names(projects: &[&Project]) -> (names: Vec<Option<String>>)
    ensures
        names@.len() == projects@.len(),
        forall|i: int|
            0 <= i < names@.len() ==> text_set::optional_view(#[trigger] names@[i]) == passes_on(
                project_names::facts(projects@),
                i,
            ),
{
    let ghost all = project_names::facts(projects@);
    let mut names: Vec<Option<String>> = Vec::new();
    let mut i: usize = 0;
    while i < projects.len()
        invariant
            i <= projects.len(),
            names@.len() == i,
            all == project_names::facts(projects@),
            forall|k: int|
                0 <= k < i ==> text_set::optional_view(#[trigger] names@[k]) == passes_on(all, k),
        decreases projects.len() - i,
    {
        proof {
            assert(all[i as int] == projects@[i as int]@);
        }
        let name: Option<String> = match projects[i].name() {
            Some(own) => if project_names::is_unique_name(projects, own) {
                Some(own.to_string())
            } else {
                None
            },
            None => Some("unknown".to_string()),
        };
        names.push(name);
        i = i + 1;
    }
    names
}

/// What a project is ordered by: its path, then the name that it passes on,
/// where it passes none on first.
pub open spec fn visiting_key(relative_path: Seq<char>, name: Option<Seq<char>>) -> Seq<Seq<char>> {
    match name {
        Some(own) => paths::path_sort_key(relative_path).push(own),
        None => paths::path_sort_key(relative_path),
    }
}

/// The projects in the order in which a name reaches them: by path, then by
/// the name that they pass on.
fn visiting_order(relative: &Vec<String>, names: &Vec<Option<String>>) -> (order: Vec<usize>)
    requires
        relative@.len() == names@.len(),
    ensures
        ordering::is_permutation(order@, relative@.len()),
        ordering::in_order(
            Seq::new(
                relative@.len(),
                |i: int| visiting_key(relative@[i]@, text_set::optional_view(names@[i])),
            ),
            order@,
        ),
{
    let ghost wanted = Seq::new(
        relative@.len(),
        |i: int| visiting_key(relative@[i]@, text_set::optional_view(names@[i])),
    );
    let mut keys: Vec<Vec<String>> = Vec::new();
    let mut i: usize = 0;
    while i < relative.len()
        invariant
            i <= relative.len() == names.len(),
            keys.len() == i,
            wanted == Seq::new(
                relative@.len(),
                |i: int| visiting_key(relative@[i]@, text_set::optional_view(names@[i])),
            ),
            forall|k: int| 0 <= k < i ==> paths::views((#[trigger] keys@[k])@) == wanted[k],
        decreases relative.len() - i,
    {
        let mut key: Vec<String> = paths::path_key(relative[i].as_str());
        let ghost path_only = paths::views(key@);
        match &names[i] {
            Some(name) => {
                key.push(name.clone());
                proof {
                    assert(paths::views(key@) =~= path_only.push(name@));
                }
            },
            None => {},
        }
        keys.push(key);
        i = i + 1;
    }
    proof {
        assert(ordering::key_views(keys@) =~= wanted);
    }
    ordering::sorted_positions(&keys)
}

/// Whether no later project with a name of its own lies where project `i` does.
fn is_last_own(projects: &[&Project], relative: &Vec<String>, i: usize, Ghost(root): Ghost<
    Seq<char>,
>) -> (last: bool)
    requires
        i < projects@.len() == relative@.len(),
        forall|k: int|
            0 <= k < relative@.len() ==> paths::components((#[trigger] relative@[k])@) == place(
                project_names::facts(projects@)[k],
                root,
            ),
    ensures
        last == forall|j: int|
            i < j && #[trigger] has_own_name(project_names::facts(projects@), j) ==> place(
                project_names::facts(projects@)[j],
                root,
            ) != place(project_names::facts(projects@)[i as int], root),
{
    let ghost all = project_names::facts(projects@);
    let count: usize = projects.len();
    let mut j: usize = i + 1;
    while j < count
        invariant
            count == projects@.len(),
            i < j <= projects@.len() == relative@.len(),
            all == project_names::facts(projects@),
            forall|k: int|
                0 <= k < relative@.len() ==> paths::components((#[trigger] relative@[k])@) == place(
                    all[k],
                    root,
                ),
            forall|k: int|
                i < k < j && #[trigger] has_own_name(all, k) ==> place(all[k], root) != place(
                    all[i as int],
                    root,
                ),
        decreases count - j,
    {
        proof {
            assert(all[j as int] == projects@[j as int]@);
            assert(paths::components(relative@[j as int]@) == place(all[j as int], root));
            assert(paths::components(relative@[i as int]@) == place(all[i as int], root));
        }
        let own: bool = match projects[j].name() {
            Some(name) => project_names::is_unique_name(projects, name),
            None => false,
        };
        if own && paths::same_path(relative[j].as_str(), relative[i].as_str()) {
            proof {
                assert(has_own_name(all, j as int));
            }
            return false;
        }
        j = j + 1;
    }
    true
}

/// The paths that may seed an expansion.
pub open spec fn seed_places(
    updates: Map<Seq<Seq<char>>, EntryView>,
    seeds: Option<&Vec<String>>,
) -> Set<Seq<Seq<char>>> {
    match seeds {
        Some(list) => paths::place_set(list@),
        None => updates.dom(),
    }
}

/// The seed names, in visiting order.
fn seed_names(
    updates: &UpdateMap,
    projects: &[&Project],
    relative: &Vec<String>,
    order: &Vec<usize>,
    seeds: Option<&Vec<String>>,
    Ghost(root): Ghost<Seq<char>>,
) -> (names: Vec<String>)
    requires
        updates.well_formed(),
        projects@.len() == relative@.len(),
        ordering::is_permutation(order@, relative@.len()),
        forall|k: int|
            0 <= k < relative@.len() ==> paths::components((#[trigger] relative@[k])@) == place(
                project_names::facts(projects@)[k],
                root,
            ),
    ensures
        forall|name: Seq<char>|
            #[trigger] paths::views(names@).contains(name) <==> is_seed_name(
                project_names::facts(projects@),
                root,
                updates@.dom(),
                seed_places(updates@, seeds),
                name,
            ),
{
    let ghost all = project_names::facts(projects@);
    let ghost scheduled = updates@.dom();
    let ghost from = seed_places(updates@, seeds);
    let mut names: Vec<String> = Vec::new();
    let mut p: usize = 0;
    while p < order.len()
        invariant
            p <= order.len(),
            updates.well_formed(),
            all == project_names::facts(projects@),
            scheduled == updates@.dom(),
            from == seed_places(updates@, seeds),
            projects@.len() == relative@.len(),
            ordering::is_permutation(order@, relative@.len()),
            forall|k: int|
                0 <= k < relative@.len() ==> paths::components((#[trigger] relative@[k])@) == place(
                    all[k],
                    root,
                ),
            forall|name: Seq<char>|
                #[trigger] paths::views(names@).contains(name) <==> exists|q: int|
                    0 <= q < p && is_seed(all, root, scheduled, from, #[trigger] order@[q] as int)
                        && all[order@[q] as int].name == Some(name),
        decreases order.len() - p,
    {
        let i: usize = order[p];
        proof {
            assert(all[i as int] == projects@[i as int]@);
            assert(paths::components(relative@[i as int]@) == place(all[i as int], root));
        }
        let ghost before = paths::views(names@);
        let ghost mut taken = false;
        match projects[i].name() {
            Some(name) => {
                let allowed: bool = match seeds {
                    Some(list) => paths::holds_path(list, relative[i].as_str()),
                    None => true,
                };
                if project_names::is_unique_name(projects, name) && allowed && updates.contains(
                    relative[i].as_str(),
                ) && is_last_own(projects, relative, i, Ghost(root)) {
                    names.push(name.to_string());
                    proof {
                        taken = true;
                        assert(paths::views(names@) =~= before.push(name@));
                    }
                }
            },
            None => {},
        }
        proof {
            assert(taken == is_seed(all, root, scheduled, from, i as int));
            assert forall|name: Seq<char>|
                #[trigger] paths::views(names@).contains(name) <==> exists|q: int|
                    0 <= q < p + 1 && is_seed(
                        all,
                        root,
                        scheduled,
                        from,
                        #[trigger] order@[q] as int,
                    ) && all[order@[q] as int].name == Some(name) by {
                if before.contains(name) {
                    let q = choose|q: int|
                        0 <= q < p && is_seed(
                            all,
                            root,
                            scheduled,
                            from,
                            #[trigger] order@[q] as int,
                        ) && all[order@[q] as int].name == Some(name);
                    assert(0 <= q < p + 1 && order@[q] == order@[q]);
                    let k = before.index_of(name);
                    assert(paths::views(names@)[k] == name);
                }
                if taken && all[i as int].name == Some(name) {
                    assert(order@[p as int] == i);
                    assert(paths::views(names@)[before.len() as int] == name);
                }
                if paths::views(names@).contains(name) && !before.contains(name) {
                    let k = paths::views(names@).index_of(name);
                    if k < before.len() {
                        assert(before[k] == name);
                    }
                    assert(taken && all[i as int].name == Some(name));
                    assert(order@[p as int] == i);
                }
            }
        }
        p = p + 1;
    }
    proof {
        assert forall|name: Seq<char>|
            #[trigger] paths::views(names@).contains(name) <==> is_seed_name(
                all,
                root,
                scheduled,
                from,
                name,
            ) by {
            if is_seed_name(all, root, scheduled, from, name) {
                let i = choose|i: int| #[trigger]
                    is_seed(all, root, scheduled, from, i) && all[i].name == Some(name);
                assert(order@.contains(i as usize));
                let q = order@.index_of(i as usize);
                assert(order@[q] as int == i);
            }
            if paths::views(names@).contains(name) {
                let q = choose|q: int|
                    0 <= q < p && is_seed(all, root, scheduled, from, #[trigger] order@[q] as int)
                        && all[order@[q] as int].name == Some(name);
                assert(is_seed(all, root, scheduled, from, order@[q] as int));
            }
        }
    }
    names
}

/// The places of all projects.
spec fn all_places(projects: Seq<ProjectView>, root: Seq<char>) -> Seq<Seq<Seq<char>>> {
    projects.map_values(|p: ProjectView| place(p, root))
}

/// Every hit through the first `n` names is taken in.
spec fn is_complete(
    projects: Seq<ProjectView>,
    queue: Seq<Seq<char>>,
    hits: Seq<(int, int)>,
    n: int,
) -> bool {
    forall|i: int, m: int|
        0 <= m < n && #[trigger] triggers(projects, queue[m], i) ==> hits.contains((i, m))
}

/// Runs the expansion to its end.
fn expand(
    updates: &UpdateMap,
    projects: &[&Project],
    relative: &Vec<String>,
    seeds: Option<&Vec<String>>,
    Ghost(root): Ghost<Seq<char>>,
) -> (result: (Expansion, Ghost<Seq<(int, int)>>))
    requires
        updates.well_formed(),
        project_names::all_well_formed(projects@),
        projects@.len() == relative@.len(),
        forall|k: int|
            0 <= k < relative@.len() ==> paths::below(
                project_names::facts(projects@)[k].path,
                root,
            ) == Some((#[trigger] relative@[k])@) && paths::components(relative@[k]@) == place(
                project_names::facts(projects@)[k],
                root,
            ),
    ensures
        result.0.holds(
            project_names::facts(projects@),
            root,
            updates@.dom(),
            seed_places(updates@, seeds),
            result.1@,
        ),
        is_complete(
            project_names::facts(projects@),
            result.0.queue(),
            result.1@,
            result.0.queue().len() as int,
        ),
        forall|name: Seq<char>| #[trigger]
            is_seed_name(
                project_names::facts(projects@),
                root,
                updates@.dom(),
                seed_places(updates@, seeds),
                name,
            ) ==> result.0.queue().contains(name),
{
    let ghost all = project_names::facts(projects@);
    let ghost scheduled = updates@.dom();
    let ghost from = seed_places(updates@, seeds);
    let names: Vec<Option<String>> = passing_names(projects);
    let order: Vec<usize> = visiting_order(relative, &names);
    let to_process: Vec<String> = seed_names(
        updates,
        projects,
        relative,
        &order,
        seeds,
        Ghost(root),
    );
    let reached: Vec<String> = match seeds {
        Some(list) => paths::copy_texts(list),
        None => updates.paths(),
    };
    let mut state = Expansion { to_process, reached, additions: Vec::new() };
    let ghost mut hits: Seq<(int, int)> = Seq::empty();
    let ghost bound = state.queue().len() + paths::places_missing(
        all_places(all, root),
        paths::place_set(state.reached@),
    );
    proof {
        assert(paths::place_set(state.reached@) =~= from);
        assert forall|k: int| 0 <= k < state.queue().len() implies is_seed_name(
            all,
            root,
            scheduled,
            from,
            #[trigger] state.queue()[k],
        ) by {
            assert(paths::views(state.to_process@).contains(state.queue()[k]));
        }
        assert forall|name: Seq<char>| #[trigger]
            is_seed_name(all, root, scheduled, from, name) implies state.queue().contains(
            name,
        ) by {
            assert(paths::views(state.to_process@).contains(name));
        }
        assert(state.holds(all, root, scheduled, from, hits)) by {
            reveal(Expansion::holds);
        }
    }
    let mut head: usize = 0;
    while head < state.to_process.len()
        invariant
            head <= state.to_process@.len(),
            updates.well_formed(),
            project_names::all_well_formed(projects@),
            all == project_names::facts(projects@),
            scheduled == updates@.dom(),
            projects@.len() == relative@.len() == names@.len(),
            ordering::is_permutation(order@, relative@.len()),
            forall|k: int|
                0 <= k < names@.len() ==> text_set::optional_view(#[trigger] names@[k])
                    == passes_on(all, k),
            forall|k: int|
                0 <= k < relative@.len() ==> paths::below(all[k].path, root) == Some(
                    (#[trigger] relative@[k])@,
                ) && paths::components(relative@[k]@) == place(all[k], root),
            state.holds(all, root, scheduled, from, hits),
            is_complete(all, state.queue(), hits, head as int),
            forall|name: Seq<char>| #[trigger]
                is_seed_name(all, root, scheduled, from, name) ==> state.queue().contains(name),
            state.queue().len() + paths::places_missing(
        all_places(all, root),
        paths::place_set(state.reached@),
    ) <= bound,
        decreases bound - head,
    {
        let ghost trigger = state.queue()[head as int];
        if project_names::is_unique_name(projects, state.to_process[head].as_str()) {
            let mut p: usize = 0;
            let ghost before_queue = state.queue();
            while p < order.len()
                invariant
                    p <= order.len(),
                    head < state.to_process@.len(),
                    updates.well_formed(),
                    project_names::all_well_formed(projects@),
                    all == project_names::facts(projects@),
                    scheduled == updates@.dom(),
                    projects@.len() == relative@.len() == names@.len(),
                    ordering::is_permutation(order@, relative@.len()),
                    project_names::is_unique(all, trigger),
                    trigger == state.queue()[head as int],
                    before_queue.len() <= state.queue().len(),
                    state.queue().take(before_queue.len() as int) == before_queue,
                    head < before_queue.len(),
                    forall|k: int|
                        0 <= k < names@.len() ==> text_set::optional_view(#[trigger] names@[k])
                            == passes_on(all, k),
                    forall|k: int|
                        0 <= k < relative@.len() ==> paths::below(all[k].path, root) == Some(
                            (#[trigger] relative@[k])@,
                        ) && paths::components(relative@[k]@) == place(all[k], root),
                    state.holds(all, root, scheduled, from, hits),
                    is_complete(all, before_queue, hits, head as int),
                    forall|q: int|
                        0 <= q < p && all[#[trigger] order@[q] as int].dependencies.contains(
                            trigger,
                        ) ==> hits.contains((order@[q] as int, head as int)),
                    state.queue().len() + paths::places_missing(
        all_places(all, root),
        paths::place_set(state.reached@),
    )
                        <= bound,
                decreases order.len() - p,
            {
                let i: usize = order[p];
                proof {
                    assert(all[i as int] == projects@[i as int]@);
                    assert(projects@[i as int].well_formed());
                    assert(paths::components(relative@[i as int]@) == place(all[i as int], root));
                    assert(state.to_process@[head as int]@ == trigger);
                }
                if text_set::holds_text(projects[i].dependencies(), state.to_process[head].as_str()) {
                    let ghost old_hits = hits;
                    let ghost old_queue = state.queue();
                    let ghost old_reached = paths::place_set(state.reached@);
                    proof {
                        assert(triggers(all, trigger, i as int));
                    }
                    let enqueued: bool = state.reach(
                        updates,
                        relative[i].as_str(),
                        &names[i],
                        head,
                        Ghost(i as int),
                        Ghost(all),
                        Ghost(root),
                        Ghost(from),
                        Ghost(hits),
                    );
                    proof {
                        hits = hits.push((i as int, head as int));
                        assert(all_places(all, root)[i as int] == place(all[i as int], root));
                        paths::places_missing_shrinks(
                            all_places(all, root),
                            old_reached,
                            place(all[i as int], root),
                        );
                        assert(state.queue()[head as int] == old_queue[head as int]);
                        assert(state.queue().take(before_queue.len() as int) =~= before_queue);
                        assert forall|x: (int, int)| old_hits.contains(x) implies hits.contains(
                            x,
                        ) by {
                            let k = old_hits.index_of(x);
                            assert(hits[k] == x);
                        }
                        assert(hits[old_hits.len() as int] == (i as int, head as int));
                    }
                }
                p = p + 1;
            }
            proof {
                assert forall|i: int, m: int|
                    0 <= m < head + 1 && #[trigger] triggers(
                        all,
                        state.queue()[m],
                        i,
                    ) implies hits.contains((i, m)) by {
                    assert(state.queue()[m] == before_queue[m]);
                    if m == head {
                        assert(order@.contains(i as usize));
                        let q = order@.index_of(i as usize);
                        assert(order@[q] as int == i);
                    } else {
                        assert(triggers(all, before_queue[m], i));
                    }
                }
                assert forall|name: Seq<char>| #[trigger]
                    is_seed_name(all, root, scheduled, from, name) implies state.queue().contains(
                    name,
                ) by {
                    let k = before_queue.index_of(name);
                    assert(state.queue()[k] == before_queue[k]);
                }
            }
        }
        head = head + 1;
    }
    (state, Ghost(hits))
}

/// What a finished expansion gives.
proof fn lemma_expansion_done(
    state: Expansion,
    projects: Seq<ProjectView>,
    root: Seq<char>,
    scheduled: Set<Seq<Seq<char>>>,
    seeds: Set<Seq<Seq<char>>>,
    hits: Seq<(int, int)>,
)
    requires
        state.holds(projects, root, scheduled, seeds, hits),
        is_complete(projects, state.queue(), hits, state.queue().len() as int),
        forall|name: Seq<char>| #[trigger]
            is_seed_name(projects, root, scheduled, seeds, name) ==> state.queue().contains(name),
    ensures
        is_expansion(projects, root, scheduled, seeds, state.queue()),
        forall|at: Seq<Seq<char>>|
            #[trigger] is_added(state.additions@, at) <==> is_reached(
                projects,
                root,
                state.queue(),
                at,
            ) && !scheduled.contains(at),
        forall|a: int|
            0 <= a < state.additions@.len() ==> is_generated(
                projects,
                root,
                state.queue(),
                paths::components((#[trigger] state.additions@[a]).path@),
                EntryView {
                    path: state.additions@[a].path@,
                    update_type: UpdateType::Patch,
                    logs: seq![
                        LogView {
                            update_type: UpdateType::Patch,
                            note: dependency_note(state.additions@[a].trigger@),
                        },
                    ],
                },
            ),
        forall|a: int, b: int|
            0 <= a < b < state.additions@.len() ==> paths::components(
                (#[trigger] state.additions@[a]).path@,
            ) != paths::components((#[trigger] state.additions@[b]).path@),
{
    reveal(Expansion::holds);
    let queue = state.queue();
    assert forall|h: int, at: Seq<Seq<char>>| #[trigger]
        hit_at(projects, root, hits, h, at) implies is_hit(
        projects,
        root,
        queue,
        at,
        hits[h].0,
        hits[h].1,
    ) by {
        assert(0 <= hits[h].1 < queue.len());
    }
    assert forall|at: Seq<Seq<char>>, i: int, m: int| #[trigger]
        is_hit(projects, root, queue, at, i, m) implies exists|h: int| #[trigger]
        hit_at(projects, root, hits, h, at) && hits[h] == (i, m) by {
        assert(hits.contains((i, m)));
        let h = hits.index_of((i, m));
        assert(hit_at(projects, root, hits, h, at));
    }
    assert forall|at: Seq<Seq<char>>|
        #[trigger] is_reached(projects, root, queue, at) <==> is_touched(
            projects,
            root,
            hits,
            at,
        ) by {
        if is_touched(projects, root, hits, at) {
            let h = choose|h: int| #[trigger] hit_at(projects, root, hits, h, at);
            assert(is_hit(projects, root, queue, at, hits[h].0, hits[h].1));
        }
    }
    assert forall|k: int| 0 <= k < queue.len() implies is_seed_name(
        projects,
        root,
        scheduled,
        seeds,
        #[trigger] queue[k],
    ) || is_passed_on(projects, root, seeds, queue, k) by {
        if !is_seed_name(projects, root, scheduled, seeds, queue[k]) {
            assert(has_source(projects, root, seeds, queue, hits, k));
            let h = choose|h: int|
                0 <= h < hits.len() && (#[trigger] hits[h]).1 < k && !seeds.contains(
                    place(projects[hits[h].0], root),
                ) && passes_on(projects, hits[h].0) == Some(queue[k]);
            let at = place(projects[hits[h].0], root);
            assert(hit_at(projects, root, hits, h, at));
            assert(is_hit(projects, root, queue, at, hits[h].0, hits[h].1));
        }
    }
    assert forall|at: Seq<Seq<char>>| #[trigger]
        is_reached(projects, root, queue, at) && !seeds.contains(at) implies exists|
        i: int,
        m: int,
    | #[trigger]
        is_hit(projects, root, queue, at, i, m) && (passes_on(projects, i) matches Some(w)
            ==> queue.contains(w)) by {
        assert(is_touched(projects, root, hits, at));
        assert(is_passed(projects, root, queue, hits, at));
        let h = choose|h: int| #[trigger]
            hit_at(projects, root, hits, h, at) && (passes_on(projects, hits[h].0) matches Some(w)
                ==> queue.contains(w));
        assert(is_hit(projects, root, queue, at, hits[h].0, hits[h].1));
    }
    assert forall|a: int| 0 <= a < state.additions@.len() implies is_generated(
        projects,
        root,
        queue,
        paths::components((#[trigger] state.additions@[a]).path@),
        EntryView {
            path: state.additions@[a].path@,
            update_type: UpdateType::Patch,
            logs: seq![
                LogView {
                    update_type: UpdateType::Patch,
                    note: dependency_note(state.additions@[a].trigger@),
                },
            ],
        },
    ) by {
        let addition = state.additions@[a];
        let at = paths::components(addition.path@);
        assert(is_sound_addition(projects, root, queue, hits, addition));
        let h = choose|h: int| #[trigger]
            hit_at(projects, root, hits, h, at) && paths::below(projects[hits[h].0].path, root)
                == Some(addition.path@);
        assert(is_hit(projects, root, queue, at, hits[h].0, hits[h].1));
        let g = choose|g: int| #[trigger]
            hit_at(projects, root, hits, g, at) && addition.trigger@ == queue[hits[g].1];
        assert(is_hit(projects, root, queue, at, hits[g].0, hits[g].1));
        assert forall|i2: int, m2: int| #[trigger]
            is_hit(projects, root, queue, at, i2, m2) implies text::text_le(
            queue[hits[g].1],
            queue[m2],
        ) by {
            let h2 = choose|h2: int| #[trigger]
                hit_at(projects, root, hits, h2, at) && hits[h2] == (i2, m2);
            assert(hit_at(projects, root, hits, h2, at));
        }
    }
}

/// `generated` lists the updates that `after` has and `before` had not, with
/// their notes.
pub open spec fn lists_generated(
    generated: Seq<GeneratedUpdate>,
    before: Map<Seq<Seq<char>>, EntryView>,
    after: Map<Seq<Seq<char>>, EntryView>,
) -> bool {
    &&& forall|g: int|
        0 <= g < generated.len() ==> {
            let at = paths::components((#[trigger] generated[g]).path@);
            &&& after.contains_key(at)
            &&& !before.contains_key(at)
            &&& after[at].path == generated[g].path@
            &&& after[at].logs == seq![
                LogView { update_type: UpdateType::Patch, note: generated[g].note@ },
            ]
        }
    &&& forall|at: Seq<Seq<char>>| #[trigger]
        after.contains_key(at) && !before.contains_key(at) ==> exists|g: int|
            0 <= g < generated.len() && paths::components((#[trigger] generated[g]).path@) == at
    &&& forall|g: int, h: int|
        0 <= g < h < generated.len() ==> paths::components((#[trigger] generated[g]).path@)
            != paths::components((#[trigger] generated[h]).path@)
}

/// Schedules the additions.
fn schedule(updates: &mut UpdateMap, additions: &Vec<Addition>) -> (generated: Vec<
    GeneratedUpdate,
>)
    requires
        old(updates).well_formed(),
        forall|a: int|
            0 <= a < additions@.len() ==> !old(updates)@.contains_key(
                paths::components((#[trigger] additions@[a]).path@),
            ),
        forall|a: int, b: int|
            0 <= a < b < additions@.len() ==> paths::components((#[trigger] additions@[a]).path@)
                != paths::components((#[trigger] additions@[b]).path@),
    ensures
        final(updates).well_formed(),
        generated@.len() == additions@.len(),
        forall|at: Seq<Seq<char>>|
            #[trigger] final(updates)@.contains_key(at) <==> old(updates)@.contains_key(at)
                || is_added(additions@, at),
        forall|at: Seq<Seq<char>>| #[trigger]
            old(updates)@.contains_key(at) ==> final(updates)@[at] == old(updates)@[at],
        forall|a: int|
            0 <= a < additions@.len() ==> final(updates)@[paths::components(
                (#[trigger] additions@[a]).path@,
            )] == (EntryView {
                path: additions@[a].path@,
                update_type: UpdateType::Patch,
                logs: seq![
                    LogView {
                        update_type: UpdateType::Patch,
                        note: dependency_note(additions@[a].trigger@),
                    },
                ],
            }),
        lists_generated(generated@, old(updates)@, final(updates)@),
{
    let ghost before = updates@;
    let mut generated: Vec<GeneratedUpdate> = Vec::new();
    let mut a: usize = 0;
    while a < additions.len()
        invariant
            a <= additions@.len(),
            updates.well_formed(),
            generated@.len() == a,
            before == old(updates)@,
            forall|b: int|
                0 <= b < additions@.len() ==> !before.contains_key(
                    paths::components((#[trigger] additions@[b]).path@),
                ),
            forall|b: int, c: int|
                0 <= b < c < additions@.len() ==> paths::components(
                    (#[trigger] additions@[b]).path@,
                ) != paths::components((#[trigger] additions@[c]).path@),
            forall|at: Seq<Seq<char>>|
                #[trigger] updates@.contains_key(at) <==> before.contains_key(at) || exists|b: int|
                    0 <= b < a && paths::components((#[trigger] additions@[b]).path@) == at,
            forall|at: Seq<Seq<char>>| #[trigger]
                before.contains_key(at) ==> updates@[at] == before[at],
            forall|b: int|
                0 <= b < a ==> updates@[paths::components((#[trigger] additions@[b]).path@)] == (
                EntryView {
                    path: additions@[b].path@,
                    update_type: UpdateType::Patch,
                    logs: seq![
                        LogView {
                            update_type: UpdateType::Patch,
                            note: dependency_note(additions@[b].trigger@),
                        },
                    ],
                }),
            forall|b: int|
                0 <= b < a ==> (#[trigger] generated@[b]).path@ == additions@[b].path@
                    && generated@[b].note@ == dependency_note(additions@[b].trigger@),
        decreases additions@.len() - a,
    {
        let note: String = joined_text3(
            "Auto-update: depends on '",
            additions[a].trigger.as_str(),
            "' via a local workspace dependency",
        );
        let mut logs: Vec<ChangePackResultLog> = Vec::new();
        logs.push(ChangePackResultLog::new(UpdateType::Patch, note.clone()));
        let ghost here = paths::components(additions@[a as int].path@);
        let ghost earlier = updates@;
        proof {
            assert(crate::update_map::log_views(logs@) =~= seq![
                LogView { update_type: UpdateType::Patch, note: note@ },
            ]);
            assert(!earlier.contains_key(here));
        }
        updates.insert_new(additions[a].path.clone(), UpdateType::Patch, logs);
        generated.push(GeneratedUpdate { path: additions[a].path.clone(), note });
        proof {
            assert forall|at: Seq<Seq<char>>|
                #[trigger] updates@.contains_key(at) <==> before.contains_key(at) || exists|b: int|
                    0 <= b < a + 1 && paths::components((#[trigger] additions@[b]).path@) == at by {
                if at == here {
                    assert(paths::components(additions@[a as int].path@) == at);
                } else if earlier.contains_key(at) && !before.contains_key(at) {
                    let b = choose|b: int|
                        0 <= b < a && paths::components((#[trigger] additions@[b]).path@) == at;
                    assert(paths::components(additions@[b].path@) == at);
                }
            }
        }
        a = a + 1;
    }
    proof {
        assert forall|at: Seq<Seq<char>>| #[trigger]
            updates@.contains_key(at) && !before.contains_key(at) implies exists|g: int|
            0 <= g < generated@.len() && paths::components((#[trigger] generated@[g]).path@)
                == at by {
            let b = choose|b: int|
                0 <= b < a && paths::components((#[trigger] additions@[b]).path@) == at;
            assert(generated@[b].path@ == additions@[b].path@);
        }
        assert forall|g: int, h: int| 0 <= g < h < generated@.len() implies paths::components(
            (#[trigger] generated@[g]).path@,
        ) != paths::components((#[trigger] generated@[h]).path@) by {
            assert(generated@[g].path@ == additions@[g].path@);
            assert(generated@[h].path@ == additions@[h].path@);
        }
        assert forall|g: int| 0 <= g < generated@.len() implies {
            let at = paths::components((#[trigger] generated@[g]).path@);
            &&& updates@.contains_key(at)
            &&& !before.contains_key(at)
            &&& updates@[at].path == generated@[g].path@
            &&& updates@[at].logs == seq![
                LogView { update_type: UpdateType::Patch, note: generated@[g].note@ },
            ]
        } by {
            assert(generated@[g].path@ == additions@[g].path@);
            assert(paths::components(additions@[g].path@) == paths::components(generated@[g].path@));
        }
    }
    generated
}

/// The candidates named in an ambiguity: the relative paths of all carriers,
/// in canonical order.
pub open spec fn are_candidates(
    projects: Seq<ProjectView>,
    name: Seq<char>,
    candidates: Seq<Seq<char>>,
) -> bool {
    project_names::paths_in_order(candidates) && candidates.to_multiset()
        == project_names::carrier_paths(projects, name).to_multiset()
}

/// No name that a project depends on is carried by several.
pub open spec fn is_unambiguous(projects: Seq<ProjectView>) -> bool {
    forall|name: Seq<char>| !#[trigger] project_names::is_ambiguous(projects, name)
}

/// The expansion has work to do: there are dependencies, updates and seeds.
pub open spec fn has_work(
    projects: Seq<ProjectView>,
    updates: Map<Seq<Seq<char>>, EntryView>,
    seeds: Set<Seq<Seq<char>>>,
) -> bool {
    has_dependencies(projects) && updates != Map::<Seq<Seq<char>>, EntryView>::empty() && seeds
        != Set::<Seq<Seq<char>>>::empty()
}

/// Schedules a patch of every project that depends, directly or through other
/// projects, on an updated one that may seed the expansion. Updates that are
/// already scheduled stay as they are.
pub fn apply_reverse_dependencies_with_provenance(
    update_map: &mut UpdateMap,
    projects: &[&Project],
    repo_root_path: &str,
    expansion_seeds: Option<&Vec<String>>,
) -> (result: Result<Vec<GeneratedUpdate>, ReverseDependencyError>)
    requires
        old(update_map).well_formed(),
        project_names::all_well_formed(projects@),
    ensures
        final(update_map).well_formed(),
        match result {
            Ok(generated) => {
                let all = project_names::facts(projects@);
                let seeds = seed_places(old(update_map)@, expansion_seeds);
                &&& is_unambiguous(all)
                &&& has_work(all, old(update_map)@, seeds) ==> all_inside(all, repo_root_path@)
                &&& !has_dependencies(all) ==> generated@.len() == 0
                &&& has_dependencies(all) ==> exists|queue: Seq<Seq<char>>| #[trigger]
                    is_expansion(all, repo_root_path@, old(update_map)@.dom(), seeds, queue)
                        && is_expanded(
                        all,
                        repo_root_path@,
                        queue,
                        old(update_map)@,
                        final(update_map)@,
                    )
                &&& lists_generated(generated@, old(update_map)@, final(update_map)@)
                &&& if generated@.len() == 0 {
                    *final(update_map) == *old(update_map)
                } else {
                    final(update_map).sorted()
                }
            },
            Err(error) => is_refused(
                project_names::facts(projects@),
                repo_root_path@,
                old(update_map)@,
                seed_places(old(update_map)@, expansion_seeds),
                error,
            ) && *final(update_map) == *old(update_map),
        },
{
    let ghost all = project_names::facts(projects@);
    let ghost root = repo_root_path@;
    let ghost before = update_map@;
    let ghost seeds = seed_places(before, expansion_seeds);
    if !any_dependencies(projects) {
        proof {
            assert forall|name: Seq<char>| !#[trigger] project_names::is_ambiguous(all, name) by {
                if project_names::is_referenced(all, name) {
                    let i = choose|i: int|
                        0 <= i < all.len() && (#[trigger] all[i]).dependencies.contains(name);
                    assert(all[i].dependencies.contains(name));
                }
            }
        }
        return Ok(Vec::new());
    }
    match project_names::first_ambiguity(projects) {
        Some(name) => {
            let candidates: Vec<String> = project_names::candidates(projects, name.as_str());
            return Err(ReverseDependencyError::Ambiguous { name, candidates });
        },
        None => {},
    }
    let idle: bool = update_map.is_empty() || match expansion_seeds {
        Some(list) => list.len() == 0,
        None => false,
    };
    if idle {
        proof {
            let queue = Seq::<Seq<char>>::empty();
            assert forall|i: int| !#[trigger] is_seed(all, root, before.dom(), seeds, i) by {
                if expansion_seeds is Some && expansion_seeds->0@.len() == 0 {
                    assert(!seeds.contains(place(all[i], root)));
                }
            }
            assert(is_expansion(all, root, before.dom(), seeds, queue));
            assert(is_expanded(all, root, queue, before, update_map@));
            if expansion_seeds is Some && expansion_seeds->0@.len() == 0 {
                assert(seeds =~= Set::<Seq<Seq<char>>>::empty());
            }
        }
        return Ok(Vec::new());
    }
    proof {
        match expansion_seeds {
            Some(list) => {
                assert(seeds.contains(paths::components(list@[0]@)));
            },
            None => {
                assert(has_work(all, before, seeds)) by {
                    let first = paths::components(update_map.entries@[0].path@);
                    assert(crate::update_map::has_entry(update_map.entries@, first));
                    assert(seeds.contains(first));
                }
            },
        }
    }
    let relative: Vec<String> = match relative_paths(projects, repo_root_path) {
        Ok(list) => list,
        Err(i) => {
            proof {
                assert(all[i as int] == projects@[i as int]@);
            }
            return Err(
                ReverseDependencyError::OutsideRepository { path: projects[i].path().to_string() },
            );
        },
    };
    let (state, Ghost(hits)): (Expansion, Ghost<Seq<(int, int)>>) = expand(
        update_map,
        projects,
        &relative,
        expansion_seeds,
        Ghost(root),
    );
    proof {
        lemma_expansion_done(state, all, root, before.dom(), seeds, hits);
        assert forall|a: int| 0 <= a < state.additions@.len() implies !before.contains_key(
            paths::components((#[trigger] state.additions@[a]).path@),
        ) by {
            assert(is_added(state.additions@, paths::components(state.additions@[a].path@)));
        }
    }
    if state.additions.len() == 0 {
        proof {
            assert forall|at: Seq<Seq<char>>| #[trigger]
                is_reached(all, root, state.queue(), at) implies before.contains_key(at) by {
                assert(!is_added(state.additions@, at));
            }
            assert(is_expanded(all, root, state.queue(), before, update_map@));
        }
        return Ok(Vec::new());
    }
    let generated: Vec<GeneratedUpdate> = schedule(update_map, &state.additions);
    update_map.sort();
    proof {
        let after = update_map@;
        assert forall|at: Seq<Seq<char>>| #[trigger]
            after.contains_key(at) && !before.contains_key(at) implies is_generated(
            all,
            root,
            state.queue(),
            at,
            after[at],
        ) by {
            assert(is_added(state.additions@, at));
            let a = choose|a: int|
                0 <= a < state.additions@.len() && paths::components(
                    (#[trigger] state.additions@[a]).path@,
                ) == at;
            assert(paths::components(state.additions@[a].path@) == at);
        }
        assert(is_expanded(all, root, state.queue(), before, after));
    }
    Ok(generated)
}

/// The error says why the expansion is refused.
pub open spec fn is_refused(
    projects: Seq<ProjectView>,
    root: Seq<char>,
    updates: Map<Seq<Seq<char>>, EntryView>,
    seeds: Set<Seq<Seq<char>>>,
    error: ReverseDependencyError,
) -> bool {
    match error {
        ReverseDependencyError::Ambiguous { name, candidates } => {
            &&& project_names::is_first_ambiguity(projects, name@)
            &&& are_candidates(projects, name@, paths::views(candidates@))
        },
        ReverseDependencyError::OutsideRepository { path } => {
            &&& is_unambiguous(projects)
            &&& has_work(projects, updates, seeds)
            &&& exists|i: int| #[trigger]
                is_first_outside(projects, root, i) && projects[i].path == path@
        },
    }
}

/// What an expansion in which every scheduled path is a seed comes to.
pub open spec fn is_outcome(
    projects: Seq<ProjectView>,
    root: Seq<char>,
    before: Map<Seq<Seq<char>>, EntryView>,
    after: Map<Seq<Seq<char>>, EntryView>,
    result: Result<(), ReverseDependencyError>,
) -> bool {
    match result {
        Ok(_) => {
            &&& is_unambiguous(projects)
            &&& has_work(projects, before, before.dom()) ==> all_inside(projects, root)
            &&& !has_dependencies(projects) ==> after == before
            &&& has_dependencies(projects) ==> exists|queue: Seq<Seq<char>>| #[trigger]
                is_expansion(projects, root, before.dom(), before.dom(), queue) && is_expanded(
                    projects,
                    root,
                    queue,
                    before,
                    after,
                )
        },
        Err(error) => is_refused(projects, root, before, before.dom(), error) && after == before,
    }
}

/// Schedules a patch of every project that depends, directly or through other
/// projects, on an updated one. Every scheduled path seeds the expansion.
pub fn apply_reverse_dependencies(
    update_map: &mut UpdateMap,
    projects: &[&Project],
    repo_root_path: &str,
) -> (result: Result<(), ReverseDependencyError>)
    requires
        old(update_map).well_formed(),
        project_names::all_well_formed(projects@),
    ensures
        final(update_map).well_formed(),
        is_outcome(
            project_names::facts(projects@),
            repo_root_path@,
            old(update_map)@,
            final(update_map)@,
            result,
        ),
        *final(update_map) == *old(update_map) || (result is Ok && final(update_map).sorted()),
{
    match apply_reverse_dependencies_with_provenance(update_map, projects, repo_root_path, None) {
        Ok(_) => Ok(()),
        Err(error) => Err(error),
    }
}

/// The candidates of an ambiguity in one line.
pub open spec fn comma_list(items: Seq<Seq<char>>) -> Seq<char>
    decreases items.len(),
{
    if items.len() == 0 {
        Seq::empty()
    } else if items.len() == 1 {
        items[0]
    } else {
        comma_list(items.drop_last()) + ", "@ + items.last()
    }
}

/// The message of an error.
pub open spec fn error_message(error: ReverseDependencyError) -> Seq<char> {
    match error {
        ReverseDependencyError::Ambiguous { name, candidates } => "ambiguous dependency `"@ + name@
            + "`: candidates: "@ + comma_list(paths::views(candidates@)),
        ReverseDependencyError::OutsideRepository { path } =>
            "failed to apply reverse dependencies for project '"@ + path@ + "'"@,
    }
}

impl ReverseDependencyError {
    /// The message shown to the user.
    pub fn message(&self) -> (message: String)
        ensures
            message@ == error_message(*self),
    {
        match self {
            ReverseDependencyError::Ambiguous { name, candidates } => {
                let mut list: String = String::new();
                let ghost all = paths::views(candidates@);
                let mut i: usize = 0;
                proof {
                    assert(all.take(0) =~= Seq::<Seq<char>>::empty());
                }
                while i < candidates.len()
                    invariant
                        i <= candidates@.len(),
                        all == paths::views(candidates@),
                        list@ == comma_list(all.take(i as int)),
                    decreases candidates@.len() - i,
                {
                    proof {
                        assert(all.take(i as int + 1).drop_last() =~= all.take(i as int));
                        assert(all.take(i as int + 1).last() == candidates@[i as int]@);
                    }
                    if i > 0 {
                        list.append(", ");
                    }
                    list.append(candidates[i].as_str());
                    proof {
                        if i == 0 {
                            assert(all.take(0) =~= Seq::<Seq<char>>::empty());
                            assert(list@ =~= all.take(1)[0]);
                        }
                    }
                    i = i + 1;
                }
                proof {
                    assert(all.take(i as int) =~= all);
                }
                let head: String = joined_text3("ambiguous dependency `", name.as_str(), "`: candidates: ");
                joined_text(head.as_str(), list.as_str())
            },
            ReverseDependencyError::OutsideRepository { path } => joined_text3(
                "failed to apply reverse dependencies for project '",
                path.as_str(),
                "'",
            ),
        }
    }
}

/// No two projects lie at the same place.
pub open spec fn distinct_places(projects: Seq<ProjectView>, root: Seq<char>) -> bool {
    forall|i: int, j: int|
        0 <= i < j < projects.len() ==> #[trigger] place(projects[i], root) != #[trigger] place(
            projects[j],
            root,
        )
}

/// An update under the name `from` leads to one under the name `to`: a project
/// outside the seeds depends on `from` and passes `to` on.
pub open spec fn leads_to(
    projects: Seq<ProjectView>,
    root: Seq<char>,
    seeds: Set<Seq<Seq<char>>>,
    from: Seq<char>,
    to: Seq<char>,
) -> bool {
    exists|i: int| #[trigger]
        triggers(projects, from, i) && !seeds.contains(place(projects[i], root)) && passes_on(
            projects,
            i,
        ) == Some(to)
}

/// `chain` starts at a seed name and each name leads to the next.
pub open spec fn is_chain(
    projects: Seq<ProjectView>,
    root: Seq<char>,
    scheduled: Set<Seq<Seq<char>>>,
    seeds: Set<Seq<Seq<char>>>,
    chain: Seq<Seq<char>>,
) -> bool {
    &&& chain.len() > 0
    &&& is_seed_name(projects, root, scheduled, seeds, chain[0])
    &&& forall|k: int|
        0 < k < chain.len() ==> leads_to(projects, root, seeds, chain[k - 1], #[trigger] chain[k])
}

/// The expansion goes through `name`: a chain of dependencies from a seed ends
/// there.
pub open spec fn is_on_the_way(
    projects: Seq<ProjectView>,
    root: Seq<char>,
    scheduled: Set<Seq<Seq<char>>>,
    seeds: Set<Seq<Seq<char>>>,
    name: Seq<char>,
) -> bool {
    exists|chain: Seq<Seq<char>>| #[trigger]
        is_chain(projects, root, scheduled, seeds, chain) && chain.last() == name
}

pub proof fn lemma_chain_in_queue(
    projects: Seq<ProjectView>,
    root: Seq<char>,
    scheduled: Set<Seq<Seq<char>>>,
    seeds: Set<Seq<Seq<char>>>,
    queue: Seq<Seq<char>>,
    chain: Seq<Seq<char>>,
)
    requires
        distinct_places(projects, root),
        is_expansion(projects, root, scheduled, seeds, queue),
        is_chain(projects, root, scheduled, seeds, chain),
    ensures
        queue.contains(chain.last()),
    decreases chain.len(),
{
    if chain.len() > 1 {
        let shorter = chain.drop_last();
        assert forall|k: int| 0 < k < shorter.len() implies leads_to(
            projects,
            root,
            seeds,
            shorter[k - 1],
            #[trigger] shorter[k],
        ) by {
            assert(chain[k] == shorter[k]);
            assert(chain[k - 1] == shorter[k - 1]);
        }
        lemma_chain_in_queue(projects, root, scheduled, seeds, queue, shorter);
        let last = chain.len() - 1;
        assert(leads_to(projects, root, seeds, chain[last - 1], chain[last]));
        let i = choose|i: int| #[trigger]
            triggers(projects, chain[last - 1], i) && !seeds.contains(place(projects[i], root))
                && passes_on(projects, i) == Some(chain[last]);
        let at = place(projects[i], root);
        let m = queue.index_of(chain[last - 1]);
        assert(is_hit(projects, root, queue, at, i, m));
        assert(is_reached(projects, root, queue, at));
        let (i2, m2) = choose|i2: int, m2: int| #[trigger]
            is_hit(projects, root, queue, at, i2, m2) && (passes_on(projects, i2) matches Some(w)
                ==> queue.contains(w));
        assert(place(projects[i2], root) == place(projects[i], root));
        assert(i2 == i);
    }
}

pub proof fn lemma_queue_on_the_way(
    projects: Seq<ProjectView>,
    root: Seq<char>,
    scheduled: Set<Seq<Seq<char>>>,
    seeds: Set<Seq<Seq<char>>>,
    queue: Seq<Seq<char>>,
    k: int,
)
    requires
        is_expansion(projects, root, scheduled, seeds, queue),
        0 <= k < queue.len(),
    ensures
        is_on_the_way(projects, root, scheduled, seeds, queue[k]),
    decreases k,
{
    if is_seed_name(projects, root, scheduled, seeds, queue[k]) {
        let chain = seq![queue[k]];
        assert(is_chain(projects, root, scheduled, seeds, chain));
        assert(chain.last() == queue[k]);
    } else {
        assert(is_passed_on(projects, root, seeds, queue, k));
        let (i, m) = choose|i: int, m: int|
            0 <= m < k && #[trigger] is_hit(projects, root, queue, place(projects[i], root), i, m)
                && !seeds.contains(place(projects[i], root)) && passes_on(projects, i) == Some(
                queue[k],
            );
        lemma_queue_on_the_way(projects, root, scheduled, seeds, queue, m);
        let chain = choose|chain: Seq<Seq<char>>| #[trigger]
            is_chain(projects, root, scheduled, seeds, chain) && chain.last() == queue[m];
        let longer = chain.push(queue[k]);
        assert forall|j: int| 0 < j < longer.len() implies leads_to(
            projects,
            root,
            seeds,
            longer[j - 1],
            #[trigger] longer[j],
        ) by {
            if j < chain.len() {
                assert(longer[j] == chain[j]);
                assert(longer[j - 1] == chain[j - 1]);
            } else {
                assert(longer[j - 1] == chain.last());
                assert(triggers(projects, queue[m], i));
            }
        }
        assert(is_chain(projects, root, scheduled, seeds, longer));
        assert(longer.last() == queue[k]);
    }
}

/// Where no two projects share a place, an expansion schedules exactly the
/// places of the projects that depend on a name on the way from a seed, and
/// nothing else.
pub proof fn expansion_reaches_exactly_the_dependents(
    projects: Seq<ProjectView>,
    root: Seq<char>,
    seeds: Set<Seq<Seq<char>>>,
    queue: Seq<Seq<char>>,
    before: Map<Seq<Seq<char>>, EntryView>,
    after: Map<Seq<Seq<char>>, EntryView>,
)
    requires
        distinct_places(projects, root),
        is_expansion(projects, root, before.dom(), seeds, queue),
        is_expanded(projects, root, queue, before, after),
    ensures
        forall|at: Seq<Seq<char>>|
            #[trigger] after.contains_key(at) <==> before.contains_key(at) || exists|
                i: int,
                name: Seq<char>,
            | #[trigger]
                triggers(projects, name, i) && place(projects[i], root) == at && is_on_the_way(
                    projects,
                    root,
                    before.dom(),
                    seeds,
                    name,
                ),
{
    assert forall|at: Seq<Seq<char>>|
        #[trigger] after.contains_key(at) <==> before.contains_key(at) || exists|
            i: int,
            name: Seq<char>,
        | #[trigger]
            triggers(projects, name, i) && place(projects[i], root) == at && is_on_the_way(
                projects,
                root,
                before.dom(),
                seeds,
                name,
            ) by {
        if is_reached(projects, root, queue, at) {
            let (i, m) = choose|i: int, m: int| #[trigger]
                is_hit(projects, root, queue, at, i, m);
            lemma_queue_on_the_way(projects, root, before.dom(), seeds, queue, m);
            assert(triggers(projects, queue[m], i));
        }
        if exists|i: int, name: Seq<char>| #[trigger]
            triggers(projects, name, i) && place(projects[i], root) == at && is_on_the_way(
                projects,
                root,
                before.dom(),
                seeds,
                name,
            ) {
            let (i, name) = choose|i: int, name: Seq<char>| #[trigger]
                triggers(projects, name, i) && place(projects[i], root) == at && is_on_the_way(
                    projects,
                    root,
                    before.dom(),
                    seeds,
                    name,
                );
            let chain = choose|chain: Seq<Seq<char>>| #[trigger]
                is_chain(projects, root, before.dom(), seeds, chain) && chain.last() == name;
            lemma_chain_in_queue(projects, root, before.dom(), seeds, queue, chain);
            assert(is_hit(projects, root, queue, at, i, queue.index_of(name)));
        }
    }
}

/// Expanding twice gives what expanding once gives, where no two projects
/// share a place and every scheduled path is a seed.
pub proof fn expansion_is_idempotent(
    projects: Seq<ProjectView>,
    root: Seq<char>,
    queue: Seq<Seq<char>>,
    second_queue: Seq<Seq<char>>,
    before: Map<Seq<Seq<char>>, EntryView>,
    after: Map<Seq<Seq<char>>, EntryView>,
    again: Map<Seq<Seq<char>>, EntryView>,
)
    requires
        distinct_places(projects, root),
        is_expansion(projects, root, before.dom(), before.dom(), queue),
        is_expanded(projects, root, queue, before, after),
        is_expansion(projects, root, after.dom(), after.dom(), second_queue),
        is_expanded(projects, root, second_queue, after, again),
    ensures
        again == after,
{
    // Every seed name of the second run was on the first run's way.
    assert forall|name: Seq<char>| #[trigger]
        is_seed_name(projects, root, after.dom(), after.dom(), name) implies queue.contains(
        name,
    ) by {
        let i = choose|i: int| #[trigger]
            is_seed(projects, root, after.dom(), after.dom(), i) && projects[i].name == Some(name);
        let at = place(projects[i], root);
        assert(after.contains_key(at));
        if before.contains_key(at) {
            assert(is_seed(projects, root, before.dom(), before.dom(), i)) by {
                assert forall|j: int| i < j && #[trigger] has_own_name(projects, j) implies place(
                    projects[j],
                    root,
                ) != place(projects[i], root) by {}
            }
            assert(is_seed_name(projects, root, before.dom(), before.dom(), name));
        } else {
            assert(is_reached(projects, root, queue, at));
            let (i2, m2) = choose|i2: int, m2: int| #[trigger]
                is_hit(projects, root, queue, at, i2, m2) && (passes_on(
                    projects,
                    i2,
                ) matches Some(w) ==> queue.contains(w));
            assert(place(projects[i2], root) == place(projects[i], root));
            assert(i2 == i);
        }
    }
    // So everything it reaches was already scheduled.
    assert forall|k: int| 0 <= k < second_queue.len() implies is_seed_name(
        projects,
        root,
        after.dom(),
        after.dom(),
        #[trigger] second_queue[k],
    ) by {
        lemma_no_new_places(projects, root, queue, second_queue, before, after, k);
    }
    assert forall|at: Seq<Seq<char>>| #[trigger]
        is_reached(projects, root, second_queue, at) implies after.contains_key(at) by {
        let (i, m) = choose|i: int, m: int| #[trigger]
            is_hit(projects, root, second_queue, at, i, m);
        assert(is_seed_name(projects, root, after.dom(), after.dom(), second_queue[m]));
        let m1 = queue.index_of(second_queue[m]);
        assert(is_hit(projects, root, queue, at, i, m1));
        assert(is_reached(projects, root, queue, at));
    }
    assert(again =~= after);
}

proof fn lemma_no_new_places(
    projects: Seq<ProjectView>,
    root: Seq<char>,
    queue: Seq<Seq<char>>,
    second_queue: Seq<Seq<char>>,
    before: Map<Seq<Seq<char>>, EntryView>,
    after: Map<Seq<Seq<char>>, EntryView>,
    k: int,
)
    requires
        is_expanded(projects, root, queue, before, after),
        is_expansion(projects, root, after.dom(), after.dom(), second_queue),
        forall|name: Seq<char>| #[trigger]
            is_seed_name(projects, root, after.dom(), after.dom(), name) ==> queue.contains(name),
        0 <= k < second_queue.len(),
    ensures
        is_seed_name(projects, root, after.dom(), after.dom(), second_queue[k]),
    decreases k,
{
    if !is_seed_name(projects, root, after.dom(), after.dom(), second_queue[k]) {
        assert(is_passed_on(projects, root, after.dom(), second_queue, k));
        let (i, m) = choose|i: int, m: int|
            0 <= m < k && #[trigger] is_hit(
                projects,
                root,
                second_queue,
                place(projects[i], root),
                i,
                m,
            ) && !after.dom().contains(place(projects[i], root)) && passes_on(projects, i) == Some(
                second_queue[k],
            );
        lemma_no_new_places(projects, root, queue, second_queue, before, after, m);
        let m1 = queue.index_of(second_queue[m]);
        let at = place(projects[i], root);
        assert(is_hit(projects, root, queue, at, i, m1));
        assert(is_reached(projects, root, queue, at));
        assert(after.contains_key(at));
    }
}

} // verus!
