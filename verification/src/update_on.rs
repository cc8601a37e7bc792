//! `updateOn` rules: an update of a path that matches a trigger updates the
//! rule's dependents.

use crate::apply_reverse_dependencies;
use crate::apply_reverse_dependencies::GeneratedUpdate;
use crate::config;
use crate::config::{RuleView, UpdateOnRule};
use crate::paths;
use crate::text;
use crate::text::joined_text;
use crate::update_map;
use crate::update_map::{ChangePackResultLog, EntryView, LogView, UpdateMap};
use crate::update_type::UpdateType;
use vstd::prelude::*;
use vstd::string::*;

verus! {

/// Whether `glob::Pattern::new` accepts a pattern.
pub uninterp spec fn glob_is_valid(pattern: Seq<char>) -> bool;

/// Whether `glob::Pattern::matches` says that a text matches a valid pattern.
pub uninterp spec fn glob_matches(pattern: Seq<char>, text: Seq<char>) -> bool;

/// `glob::Pattern::new`: compiles a shell pattern, and fails where it is
/// malformed. Which patterns it accepts depends on the pattern alone.
#[verifier::external_body]
fn glob_compiles(pattern: &str) -> (valid: bool)
    ensures
        valid == glob_is_valid(pattern@),
{
    glob::Pattern::new(pattern).is_ok()
}

/// `glob::Pattern::matches`, on the pattern compiled from `pattern`: whether
/// the whole text matches, by the default options. The answer depends on the
/// pattern and the text alone; a pattern that does not compile matches nothing.
#[verifier::external_body]
fn glob_accepts(pattern: &str, text: &str) -> (matched: bool)
    ensures
        matched == (glob_is_valid(pattern@) && glob_matches(pattern@, text@)),
{
    match glob::Pattern::new(pattern) {
        Ok(compiled) => compiled.matches(text),
        Err(_) => false,
    }
}

/// Rule `r` fires on a path: the path with slashes matches its trigger.
pub open spec fn fires(rules: Seq<RuleView>, r: int, path: Seq<char>) -> bool {
    0 <= r < rules.len() && glob_is_valid(rules[r].trigger) && glob_matches(
        rules[r].trigger,
        paths::with_slashes(path),
    )
}

/// Rule `r` fires on the path `queue[m]` and lists dependent `j`, which lies
/// at `at`.
pub open spec fn is_rule_hit(
    rules: Seq<RuleView>,
    queue: Seq<Seq<char>>,
    at: Seq<Seq<char>>,
    m: int,
    r: int,
    j: int,
) -> bool {
    &&& 0 <= m < queue.len()
    &&& fires(rules, r, queue[m])
    &&& 0 <= j < rules[r].dependents.len()
    &&& paths::components(rules[r].dependents[j]) == at
}

/// Some rule that fires on a queued path lists a dependent at `at`.
pub open spec fn is_rule_reached(
    rules: Seq<RuleView>,
    queue: Seq<Seq<char>>,
    at: Seq<Seq<char>>,
) -> bool {
    exists|m: int, r: int, j: int| #[trigger] is_rule_hit(rules, queue, at, m, r, j)
}

/// `queue[k]` was queued because a rule fired one level earlier.
pub open spec fn is_rule_queued(
    rules: Seq<RuleView>,
    queue: Seq<Seq<char>>,
    levels: Seq<int>,
    k: int,
) -> bool {
    exists|m: int, r: int, j: int| #[trigger]
        is_rule_hit(rules, queue, paths::components(queue[k]), m, r, j) && m < k && levels[m] + 1
            == levels[k] && rules[r].dependents[j] == queue[k]
}

/// The place `at` is queued at `level` or before.
pub open spec fn is_queued_by(
    queue: Seq<Seq<char>>,
    levels: Seq<int>,
    at: Seq<Seq<char>>,
    level: int,
) -> bool {
    exists|k: int|
        0 <= k < queue.len() && paths::components(#[trigger] queue[k]) == at && levels[k] <= level
}

/// Behind the first `seeds` paths, each path was queued because a rule fired
/// one level earlier, and no place is queued twice.
pub open spec fn is_queued_in_turn(
    rules: Seq<RuleView>,
    seeds: int,
    queue: Seq<Seq<char>>,
    levels: Seq<int>,
) -> bool {
    &&& forall|k: int|
        seeds <= k < queue.len() ==> #[trigger] is_rule_queued(rules, queue, levels, k)
    &&& forall|k: int, l: int|
        seeds <= k < queue.len() && 0 <= l < k ==> paths::components(#[trigger] queue[l])
            != paths::components(#[trigger] queue[k])
}

/// `queue` lists the first `seeds` paths and then, level by level, every
/// further place that a rule reaches from a queued path, each once.
pub open spec fn is_rule_walk(
    rules: Seq<RuleView>,
    seeds: int,
    queue: Seq<Seq<char>>,
    levels: Seq<int>,
) -> bool {
    &&& 0 <= seeds <= queue.len() == levels.len()
    &&& forall|k: int| 0 <= k < seeds ==> #[trigger] levels[k] == 0
    &&& is_queued_in_turn(rules, seeds, queue, levels)
    &&& forall|at: Seq<Seq<char>>, m: int, r: int, j: int| #[trigger]
        is_rule_hit(rules, queue, at, m, r, j) ==> is_queued_by(queue, levels, at, levels[m] + 1)
}

/// The note of an update that a rule scheduled.
pub open spec fn rule_note(trigger: Seq<char>) -> Seq<char> {
    "Auto-update triggered by updateOn rule: "@ + trigger
}

/// A hit comes no later than another: at an earlier level, or at the same
/// level through no later rule.
pub open spec fn comes_first(level: int, r: int, other_level: int, other_r: int) -> bool {
    level < other_level || (level == other_level && r <= other_r)
}

/// The update scheduled at `at`: a patch, noted under the first rule that
/// reached the place.
pub open spec fn is_rule_generated(
    rules: Seq<RuleView>,
    queue: Seq<Seq<char>>,
    levels: Seq<int>,
    at: Seq<Seq<char>>,
    entry: EntryView,
) -> bool {
    exists|m: int, r: int, j: int| #[trigger]
        is_rule_hit(rules, queue, at, m, r, j) && entry == (EntryView {
            path: rules[r].dependents[j],
            update_type: UpdateType::Patch,
            logs: seq![
                LogView { update_type: UpdateType::Patch, note: rule_note(rules[r].trigger) },
            ],
        }) && forall|m2: int, r2: int, j2: int| #[trigger]
            is_rule_hit(rules, queue, at, m2, r2, j2) ==> comes_first(
                levels[m],
                r,
                levels[m2],
                r2,
            )
}

/// `after` is `before` with an update at each reached place that had none.
pub open spec fn is_rule_expanded(
    rules: Seq<RuleView>,
    queue: Seq<Seq<char>>,
    levels: Seq<int>,
    before: Map<Seq<Seq<char>>, EntryView>,
    after: Map<Seq<Seq<char>>, EntryView>,
) -> bool {
    &&& forall|at: Seq<Seq<char>>|
        #[trigger] after.contains_key(at) <==> before.contains_key(at) || is_rule_reached(
            rules,
            queue,
            at,
        )
    &&& forall|at: Seq<Seq<char>>| #[trigger]
        before.contains_key(at) ==> after[at] == before[at]
    &&& forall|at: Seq<Seq<char>>| #[trigger]
        after.contains_key(at) && !before.contains_key(at) ==> is_rule_generated(
            rules,
            queue,
            levels,
            at,
            after[at],
        )
}

/// A hit that was taken in.
struct RuleHit {
    m: int,
    r: int,
    j: int,
}

spec fn rule_hit_at(
    rules: Seq<RuleView>,
    queue: Seq<Seq<char>>,
    hits: Seq<RuleHit>,
    h: int,
    at: Seq<Seq<char>>,
) -> bool {
    0 <= h < hits.len() && is_rule_hit(rules, queue, at, hits[h].m, hits[h].r, hits[h].j)
}

spec fn is_rule_touched(
    rules: Seq<RuleView>,
    queue: Seq<Seq<char>>,
    hits: Seq<RuleHit>,
    at: Seq<Seq<char>>,
) -> bool {
    exists|h: int| #[trigger] rule_hit_at(rules, queue, hits, h, at)
}

/// The update at `at` is the one of the first hit there.
spec fn is_first_hit(
    rules: Seq<RuleView>,
    queue: Seq<Seq<char>>,
    levels: Seq<int>,
    hits: Seq<RuleHit>,
    at: Seq<Seq<char>>,
    entry: EntryView,
) -> bool {
    exists|h: int| #[trigger]
        rule_hit_at(rules, queue, hits, h, at) && entry == (EntryView {
            path: rules[hits[h].r].dependents[hits[h].j],
            update_type: UpdateType::Patch,
            logs: seq![
                LogView {
                    update_type: UpdateType::Patch,
                    note: rule_note(rules[hits[h].r].trigger),
                },
            ],
        }) && forall|g: int| #[trigger]
            rule_hit_at(rules, queue, hits, g, at) ==> comes_first(
                levels[hits[h].m],
                hits[h].r,
                levels[hits[g].m],
                hits[g].r,
            )
}

/// What holds while level `level` is worked off up to rule `r`.
#[verifier::opaque]
spec fn walk_holds(
    rules: Seq<RuleView>,
    seeds: int,
    queue: Seq<Seq<char>>,
    levels: Seq<int>,
    hits: Seq<RuleHit>,
    level: int,
    r: int,
    before: Map<Seq<Seq<char>>, EntryView>,
    updates: Map<Seq<Seq<char>>, EntryView>,
    generated: Seq<GeneratedUpdate>,
) -> bool {
    &&& 0 <= seeds <= queue.len() == levels.len()
    &&& forall|k: int| 0 <= k < seeds ==> #[trigger] levels[k] == 0
    &&& forall|k: int| 0 <= k < levels.len() ==> #[trigger] levels[k] <= level + 1
    &&& is_queued_in_turn(rules, seeds, queue, levels)
    &&& forall|h: int|
        0 <= h < hits.len() ==> {
            let hit = #[trigger] hits[h];
            let at = paths::components(rules[hit.r].dependents[hit.j]);
            &&& is_rule_hit(rules, queue, at, hit.m, hit.r, hit.j)
            &&& is_queued_by(queue, levels, at, levels[hit.m] + 1)
            &&& comes_first(levels[hit.m], hit.r, level, r)
        }
    &&& forall|at: Seq<Seq<char>>|
        #[trigger] updates.contains_key(at) <==> before.contains_key(at) || is_rule_touched(
            rules,
            queue,
            hits,
            at,
        )
    &&& forall|at: Seq<Seq<char>>| #[trigger]
        before.contains_key(at) ==> updates[at] == before[at]
    &&& forall|at: Seq<Seq<char>>| #[trigger]
        updates.contains_key(at) && !before.contains_key(at) ==> is_first_hit(
            rules,
            queue,
            levels,
            hits,
            at,
            updates[at],
        )
    &&& apply_reverse_dependencies::lists_generated(generated, before, updates)
}

/// A hit on a queue stays one when the queue grows.
proof fn lemma_hits_grow(
    rules: Seq<RuleView>,
    queue: Seq<Seq<char>>,
    longer: Seq<Seq<char>>,
    hits: Seq<RuleHit>,
    hit: RuleHit,
)
    requires
        queue.len() <= longer.len(),
        longer.take(queue.len() as int) == queue,
        forall|h: int| 0 <= h < hits.len() ==> 0 <= (#[trigger] hits[h]).m < queue.len(),
        0 <= hit.m < queue.len(),
        is_rule_hit(
            rules,
            queue,
            paths::components(rules[hit.r].dependents[hit.j]),
            hit.m,
            hit.r,
            hit.j,
        ),
    ensures
        forall|at: Seq<Seq<char>>, m: int, r: int, j: int|
            0 <= m < queue.len() ==> (is_rule_hit(rules, queue, at, m, r, j) == #[trigger]
            is_rule_hit(rules, longer, at, m, r, j)),
        forall|h: int, at: Seq<Seq<char>>| #[trigger]
            rule_hit_at(rules, longer, hits.push(hit), h, at) <==> rule_hit_at(
                rules,
                queue,
                hits,
                h,
                at,
            ) || (h == hits.len() && at == paths::components(rules[hit.r].dependents[hit.j])),
        forall|at: Seq<Seq<char>>| #[trigger]
            is_rule_touched(rules, longer, hits.push(hit), at) <==> is_rule_touched(
                rules,
                queue,
                hits,
                at,
            ) || at == paths::components(rules[hit.r].dependents[hit.j]),
{
    let after = hits.push(hit);
    let here = paths::components(rules[hit.r].dependents[hit.j]);
    assert forall|at: Seq<Seq<char>>, m: int, r: int, j: int| 0 <= m < queue.len() implies (
    is_rule_hit(rules, queue, at, m, r, j) == #[trigger] is_rule_hit(
        rules,
        longer,
        at,
        m,
        r,
        j,
    )) by {
        assert(longer[m] == queue[m]);
    }
    assert forall|h: int, at: Seq<Seq<char>>| #[trigger]
        rule_hit_at(rules, longer, after, h, at) <==> rule_hit_at(rules, queue, hits, h, at) || (h
            == hits.len() && at == here) by {
        if 0 <= h < hits.len() {
            assert(after[h] == hits[h]);
            assert(longer[hits[h].m] == queue[hits[h].m]);
        }
        assert(longer[hit.m] == queue[hit.m]);
    }
    assert forall|at: Seq<Seq<char>>| #[trigger]
        is_rule_touched(rules, longer, after, at) <==> is_rule_touched(rules, queue, hits, at) || at
            == here by {
        if is_rule_touched(rules, queue, hits, at) {
            let h = choose|h: int| #[trigger] rule_hit_at(rules, queue, hits, h, at);
            assert(rule_hit_at(rules, longer, after, h, at));
        }
        if at == here {
            assert(rule_hit_at(rules, longer, after, hits.len() as int, at));
        }
    }
}

/// Takes one hit in: schedules the dependent where it is not scheduled, and
/// queues it where it is not queued.
fn take_hit(
    updates: &mut UpdateMap,
    seeds: &mut Vec<String>,
    generated: &mut Vec<GeneratedUpdate>,
    trigger: &str,
    dependent: &str,
    Ghost(rules): Ghost<Seq<RuleView>>,
    Ghost(first): Ghost<int>,
    Ghost(levels): Ghost<Seq<int>>,
    Ghost(hits): Ghost<Seq<RuleHit>>,
    Ghost(level): Ghost<int>,
    Ghost(hit): Ghost<RuleHit>,
    Ghost(before): Ghost<Map<Seq<Seq<char>>, EntryView>>,
) -> (grown: Ghost<Seq<int>>)
    requires
        old(updates).well_formed(),
        walk_holds(
            rules,
            first,
            paths::views(old(seeds)@),
            levels,
            hits,
            level,
            hit.r,
            before,
            old(updates)@,
            old(generated)@,
        ),
        is_rule_hit(
            rules,
            paths::views(old(seeds)@),
            paths::components(dependent@),
            hit.m,
            hit.r,
            hit.j,
        ),
        rules[hit.r].trigger == trigger@,
        rules[hit.r].dependents[hit.j] == dependent@,
        levels[hit.m] == level,
        level >= 0,
    ensures
        final(updates).well_formed(),
        walk_holds(
            rules,
            first,
            paths::views(final(seeds)@),
            grown@,
            hits.push(hit),
            level,
            hit.r,
            before,
            final(updates)@,
            final(generated)@,
        ),
        paths::views(old(seeds)@).len() <= paths::views(final(seeds)@).len(),
        paths::views(final(seeds)@).take(old(seeds)@.len() as int) == paths::views(old(seeds)@),
        grown@.take(levels.len() as int) == levels,
        forall|k: int| levels.len() <= k < grown@.len() ==> #[trigger] grown@[k] == level + 1,
        paths::place_set(final(seeds)@) == paths::place_set(old(seeds)@).insert(
            paths::components(dependent@),
        ),
        final(seeds)@.len() <= old(seeds)@.len() + 1,
        final(seeds)@.len() > old(seeds)@.len() ==> !paths::place_set(old(seeds)@).contains(
            paths::components(dependent@),
        ),
{
    proof {
        reveal(walk_holds);
    }
    let ghost at = paths::components(dependent@);
    let ghost queue = paths::views(seeds@);
    let ghost old_updates = updates@;
    let ghost old_generated = generated@;
    let ghost old_seeds = seeds@;
    let ghost after = hits.push(hit);
    let needs_update: bool = !updates.contains(dependent);
    let needs_seed: bool = !paths::holds_path(seeds, dependent);
    if needs_update {
        let note: String = joined_text("Auto-update triggered by updateOn rule: ", trigger);
        let mut logs: Vec<ChangePackResultLog> = Vec::new();
        logs.push(ChangePackResultLog::new(UpdateType::Patch, note.clone()));
        proof {
            assert(update_map::log_views(logs@) =~= seq![
                LogView { update_type: UpdateType::Patch, note: note@ },
            ]);
        }
        updates.insert_new(dependent.to_string(), UpdateType::Patch, logs);
        generated.push(GeneratedUpdate { path: dependent.to_string(), note });
    }
    let ghost mut grown = levels;
    if needs_seed {
        seeds.push(dependent.to_string());
        proof {
            grown = levels.push(level + 1);
            paths::place_set_push(old_seeds, seeds@.last());
            assert(seeds@ =~= old_seeds.push(seeds@.last()));
        }
    } else {
        proof {
            assert(paths::place_set(seeds@) =~= paths::place_set(old_seeds).insert(at));
        }
    }
    let ghost longer = paths::views(seeds@);
    proof {
        if needs_seed {
            assert(longer =~= queue.push(dependent@));
            assert forall|l: int| 0 <= l < queue.len() implies paths::components(
                #[trigger] queue[l],
            ) != at by {
                assert(!paths::same_place(old_seeds[l]@, dependent@));
            }
        } else {
            assert(longer =~= queue);
            let k = choose|k: int|
                0 <= k < old_seeds.len() && paths::same_place((#[trigger] old_seeds[k])@, dependent@);
            assert(paths::components(queue[k]) == at);
        }
        if needs_update {
            assert(generated@.take(old_generated.len() as int) =~= old_generated);
            assert(generated@.last().path@ == dependent@);
        }
        assert(longer.take(queue.len() as int) =~= queue);
        assert(grown.take(levels.len() as int) =~= levels);
        lemma_hit_taken(
            rules,
            first,
            queue,
            longer,
            levels,
            grown,
            hits,
            hit,
            level,
            before,
            old_updates,
            updates@,
            old_generated,
            generated@,
        );
    }
    Ghost(grown)
}

/// The bookkeeping of a walk survives one more hit.
proof fn lemma_hit_taken(
    rules: Seq<RuleView>,
    first: int,
    queue: Seq<Seq<char>>,
    longer: Seq<Seq<char>>,
    levels: Seq<int>,
    grown: Seq<int>,
    hits: Seq<RuleHit>,
    hit: RuleHit,
    level: int,
    before: Map<Seq<Seq<char>>, EntryView>,
    updates: Map<Seq<Seq<char>>, EntryView>,
    after_updates: Map<Seq<Seq<char>>, EntryView>,
    generated: Seq<GeneratedUpdate>,
    after_generated: Seq<GeneratedUpdate>,
)
    requires
        walk_holds(
            rules,
            first,
            queue,
            levels,
            hits,
            level,
            hit.r,
            before,
            updates,
            generated,
        ),
        is_rule_hit(
            rules,
            queue,
            paths::components(rules[hit.r].dependents[hit.j]),
            hit.m,
            hit.r,
            hit.j,
        ),
        levels[hit.m] == level,
        level >= 0,
        grows_with(queue, longer, levels, grown, level, rules[hit.r].dependents[hit.j]),
        ({
            let at = paths::components(rules[hit.r].dependents[hit.j]);
            if updates.contains_key(at) {
                after_updates == updates && after_generated == generated
            } else {
                &&& after_generated.len() == generated.len() + 1
                &&& after_generated.take(generated.len() as int) == generated
                &&& after_generated.last().path@ == rules[hit.r].dependents[hit.j]
                &&& after_generated.last().note@ == rule_note(rules[hit.r].trigger)
                &&& after_updates == updates.insert(
                    at,
                    EntryView {
                        path: rules[hit.r].dependents[hit.j],
                        update_type: UpdateType::Patch,
                        logs: seq![
                            LogView {
                                update_type: UpdateType::Patch,
                                note: rule_note(rules[hit.r].trigger),
                            },
                        ],
                    },
                )
            }
        }),
    ensures
        walk_holds(
            rules,
            first,
            longer,
            grown,
            hits.push(hit),
            level,
            hit.r,
            before,
            after_updates,
            after_generated,
        ),
{
    reveal(walk_holds);
    let dependent = rules[hit.r].dependents[hit.j];
    let at = paths::components(dependent);
    let after = hits.push(hit);
    lemma_hits_grow(rules, queue, longer, hits, hit);
    lemma_queue_grows(rules, first, queue, longer, levels, grown, level, hit);
    assert forall|k: int| 0 <= k < levels.len() implies #[trigger] grown[k] == levels[k] by {
        assert(grown.take(levels.len() as int)[k] == grown[k]);
    }
    assert forall|k: int| 0 <= k < queue.len() implies #[trigger] longer[k] == queue[k] by {
        assert(longer.take(queue.len() as int)[k] == longer[k]);
    }
    // Everything hit so far stays queued in time.
    assert forall|h: int| 0 <= h < after.len() implies {
        let one = #[trigger] after[h];
        let there = paths::components(rules[one.r].dependents[one.j]);
        &&& is_rule_hit(rules, longer, there, one.m, one.r, one.j)
        &&& is_queued_by(longer, grown, there, grown[one.m] + 1)
        &&& comes_first(grown[one.m], one.r, level, hit.r)
    } by {
        if h < hits.len() {
            let one = hits[h];
            assert(after[h] == one);
            let there = paths::components(rules[one.r].dependents[one.j]);
            assert(is_queued_by(queue, levels, there, levels[one.m] + 1));
            let k = choose|k: int|
                0 <= k < queue.len() && paths::components(#[trigger] queue[k]) == there
                    && levels[k] <= levels[one.m] + 1;
            assert(paths::components(longer[k]) == there);
            assert(grown[k] == levels[k]);
        } else {
            assert(after[h] == hit);
            if longer.len() > queue.len() {
                let k = queue.len() as int;
                assert(paths::components(longer[k]) == at);
                assert(grown[k] == level + 1);
            } else {
                let k = choose|k: int|
                    0 <= k < queue.len() && paths::components(#[trigger] queue[k]) == at;
                assert(paths::components(longer[k]) == at);
                assert(levels[k] <= level + 1);
            }
        }
    }
    assert forall|x: Seq<Seq<char>>|
        #[trigger] after_updates.contains_key(x) <==> before.contains_key(x) || is_rule_touched(
            rules,
            longer,
            after,
            x,
        ) by {
        assert(updates.contains_key(x) <==> before.contains_key(x) || is_rule_touched(
            rules,
            queue,
            hits,
            x,
        ));
    }
    assert forall|x: Seq<Seq<char>>| #[trigger]
        before.contains_key(x) implies after_updates[x] == before[x] by {
        assert(updates.contains_key(x));
    }
    // The first hit at a place stays the first.
    assert forall|x: Seq<Seq<char>>| #[trigger]
        after_updates.contains_key(x) && !before.contains_key(x) implies is_first_hit(
        rules,
        longer,
        grown,
        after,
        x,
        after_updates[x],
    ) by {
        if updates.contains_key(x) {
            assert(after_updates[x] == updates[x]);
            assert(is_first_hit(rules, queue, levels, hits, x, updates[x]));
            lemma_first_stays(rules, queue, longer, levels, grown, hits, hit, level, x, updates[x]);
        } else {
            assert(x == at);
            let h = hits.len() as int;
            assert(after[h] == hit);
            assert(rule_hit_at(rules, longer, after, h, x));
            assert forall|g: int| #[trigger]
                rule_hit_at(rules, longer, after, g, x) implies g == h by {
                if g < hits.len() {
                    assert(rule_hit_at(rules, queue, hits, g, x));
                    assert(is_rule_touched(rules, queue, hits, x));
                }
            }
        }
    }
    lemma_listing_grows(
        generated,
        after_generated,
        before,
        updates,
        after_updates,
        !updates.contains_key(at),
        at,
    );
}

/// The queue and its levels either stay, the place being queued, or grow by
/// `path` at the next level.
spec fn grows_with(
    queue: Seq<Seq<char>>,
    longer: Seq<Seq<char>>,
    levels: Seq<int>,
    grown: Seq<int>,
    level: int,
    path: Seq<char>,
) -> bool {
    &&& longer.take(queue.len() as int) == queue
    &&& grown.take(levels.len() as int) == levels
    &&& {
        ||| longer == queue && grown == levels && exists|k: int|
            0 <= k < queue.len() && paths::components(#[trigger] queue[k]) == paths::components(
                path,
            )
        ||| longer == queue.push(path) && grown == levels.push(level + 1) && forall|l: int|
            0 <= l < queue.len() ==> paths::components(#[trigger] queue[l]) != paths::components(
                path,
            )
    }
}

/// The first hit at a place stays first under a hit that comes no earlier.
proof fn lemma_first_stays(
    rules: Seq<RuleView>,
    queue: Seq<Seq<char>>,
    longer: Seq<Seq<char>>,
    levels: Seq<int>,
    grown: Seq<int>,
    hits: Seq<RuleHit>,
    hit: RuleHit,
    level: int,
    x: Seq<Seq<char>>,
    entry: EntryView,
)
    requires
        queue.len() == levels.len(),
        queue.len() <= longer.len(),
        longer.take(queue.len() as int) == queue,
        grown.len() >= levels.len(),
        grown.take(levels.len() as int) == levels,
        forall|h: int|
            0 <= h < hits.len() ==> 0 <= (#[trigger] hits[h]).m < queue.len() && comes_first(
                levels[hits[h].m],
                hits[h].r,
                level,
                hit.r,
            ),
        is_rule_hit(
            rules,
            queue,
            paths::components(rules[hit.r].dependents[hit.j]),
            hit.m,
            hit.r,
            hit.j,
        ),
        levels[hit.m] == level,
        is_first_hit(rules, queue, levels, hits, x, entry),
    ensures
        is_first_hit(rules, longer, grown, hits.push(hit), x, entry),
{
    let after = hits.push(hit);
    lemma_hits_grow(rules, queue, longer, hits, hit);
    assert forall|k: int| 0 <= k < levels.len() implies #[trigger] grown[k] == levels[k] by {
        assert(grown.take(levels.len() as int)[k] == grown[k]);
    }
    let h = choose|h: int| #[trigger]
        rule_hit_at(rules, queue, hits, h, x) && entry == (EntryView {
            path: rules[hits[h].r].dependents[hits[h].j],
            update_type: UpdateType::Patch,
            logs: seq![
                LogView {
                    update_type: UpdateType::Patch,
                    note: rule_note(rules[hits[h].r].trigger),
                },
            ],
        }) && forall|g: int| #[trigger]
            rule_hit_at(rules, queue, hits, g, x) ==> comes_first(
                levels[hits[h].m],
                hits[h].r,
                levels[hits[g].m],
                hits[g].r,
            );
    assert(after[h] == hits[h]);
    assert(rule_hit_at(rules, longer, after, h, x));
    assert forall|g: int| #[trigger] rule_hit_at(rules, longer, after, g, x) implies comes_first(
        grown[after[h].m],
        after[h].r,
        grown[after[g].m],
        after[g].r,
    ) by {
        if g < hits.len() {
            assert(rule_hit_at(rules, queue, hits, g, x));
            assert(after[g] == hits[g]);
        } else {
            assert(after[g] == hit);
            assert(comes_first(levels[hits[h].m], hits[h].r, level, hit.r));
        }
    }
}

/// The bookkeeping of the queue survives one more hit.
proof fn lemma_queue_grows(
    rules: Seq<RuleView>,
    first: int,
    queue: Seq<Seq<char>>,
    longer: Seq<Seq<char>>,
    levels: Seq<int>,
    grown: Seq<int>,
    level: int,
    hit: RuleHit,
)
    requires
        0 <= first <= queue.len() == levels.len(),
        grows_with(queue, longer, levels, grown, level, rules[hit.r].dependents[hit.j]),
        is_rule_hit(
            rules,
            queue,
            paths::components(rules[hit.r].dependents[hit.j]),
            hit.m,
            hit.r,
            hit.j,
        ),
        levels[hit.m] == level,
        forall|k: int| 0 <= k < levels.len() ==> #[trigger] levels[k] <= level + 1,
        is_queued_in_turn(rules, first, queue, levels),
    ensures
        longer.len() == grown.len(),
        forall|k: int| 0 <= k < grown.len() ==> #[trigger] grown[k] <= level + 1,
        is_queued_in_turn(rules, first, longer, grown),
{
    assert forall|k: int| first <= k < longer.len() implies #[trigger] is_rule_queued(
        rules,
        longer,
        grown,
        k,
    ) by {
        if k < queue.len() {
            assert(is_rule_queued(rules, queue, levels, k));
            let (m, r, j) = choose|m: int, r: int, j: int| #[trigger]
                is_rule_hit(rules, queue, paths::components(queue[k]), m, r, j) && m < k
                    && levels[m] + 1 == levels[k] && rules[r].dependents[j] == queue[k];
            assert(longer[m] == queue[m]);
            assert(longer[k] == queue[k]);
            assert(is_rule_hit(rules, longer, paths::components(longer[k]), m, r, j));
        } else {
            assert(longer[hit.m] == queue[hit.m]);
            assert(is_rule_hit(
                rules,
                longer,
                paths::components(longer[k]),
                hit.m,
                hit.r,
                hit.j,
            ));
        }
    }
}

/// The list of generated updates follows the map.
proof fn lemma_listing_grows(
    generated: Seq<GeneratedUpdate>,
    longer: Seq<GeneratedUpdate>,
    before: Map<Seq<Seq<char>>, EntryView>,
    updates: Map<Seq<Seq<char>>, EntryView>,
    after: Map<Seq<Seq<char>>, EntryView>,
    grew: bool,
    at: Seq<Seq<char>>,
)
    requires
        apply_reverse_dependencies::lists_generated(generated, before, updates),
        forall|x: Seq<Seq<char>>| before.contains_key(x) ==> updates.contains_key(x),
        !grew ==> longer == generated && after == updates,
        grew ==> !updates.contains_key(at) && longer.len() == generated.len() + 1 && longer.take(
            generated.len() as int,
        ) == generated && paths::components(longer.last().path@) == at && after == updates.insert(
            at,
            EntryView {
                path: longer.last().path@,
                update_type: UpdateType::Patch,
                logs: seq![
                    LogView { update_type: UpdateType::Patch, note: longer.last().note@ },
                ],
            },
        ),
    ensures
        apply_reverse_dependencies::lists_generated(longer, before, after),
{
    if grew {
        let last = generated.len() as int;
        assert forall|g: int| 0 <= g < last implies #[trigger] longer[g] == generated[g] by {
            assert(longer.take(last)[g] == longer[g]);
        }
        assert forall|g: int| 0 <= g < longer.len() implies {
            let here = paths::components((#[trigger] longer[g]).path@);
            &&& after.contains_key(here)
            &&& !before.contains_key(here)
            &&& after[here].path == longer[g].path@
            &&& after[here].logs == seq![
                LogView { update_type: UpdateType::Patch, note: longer[g].note@ },
            ]
        } by {
            if g < last {
                assert(longer[g] == generated[g]);
            }
        }
        assert forall|x: Seq<Seq<char>>| #[trigger]
            after.contains_key(x) && !before.contains_key(x) implies exists|g: int|
            0 <= g < longer.len() && paths::components((#[trigger] longer[g]).path@) == x by {
            if x == at {
                assert(paths::components(longer[last].path@) == x);
            } else {
                assert(updates.contains_key(x));
                let g = choose|g: int|
                    0 <= g < generated.len() && paths::components((#[trigger] generated[g]).path@)
                        == x;
                assert(longer[g] == generated[g]);
            }
        }
        assert forall|g: int, h: int| 0 <= g < h < longer.len() implies paths::components(
            (#[trigger] longer[g]).path@,
        ) != paths::components((#[trigger] longer[h]).path@) by {
            assert(longer[g] == generated[g]);
            if h < last {
                assert(longer[h] == generated[h]);
            } else {
                assert(updates.contains_key(paths::components(generated[g].path@)));
            }
        }
    }
}

/// The places of all dependents of the rules.
spec fn dependent_places(rules: Seq<RuleView>) -> Seq<Seq<Seq<char>>>
    decreases rules.len(),
{
    if rules.len() == 0 {
        Seq::empty()
    } else {
        dependent_places(rules.drop_last()) + rules.last().dependents.map_values(
            |d: Seq<char>| paths::components(d),
        )
    }
}

proof fn lemma_dependent_place(rules: Seq<RuleView>, r: int, j: int)
    requires
        0 <= r < rules.len(),
        0 <= j < rules[r].dependents.len(),
    ensures
        dependent_places(rules).contains(paths::components(rules[r].dependents[j])),
    decreases rules.len(),
{
    let last = rules.last().dependents.map_values(|d: Seq<char>| paths::components(d));
    let front = dependent_places(rules.drop_last());
    if r == rules.len() - 1 {
        assert(dependent_places(rules)[front.len() + j] == last[j]);
    } else {
        lemma_dependent_place(rules.drop_last(), r, j);
        let k = front.index_of(paths::components(rules[r].dependents[j]));
        assert(dependent_places(rules)[k] == front[k]);
    }
}

/// What was taken in stays taken in.
spec fn keeps_hits(hits: Seq<RuleHit>, more: Seq<RuleHit>) -> bool {
    forall|hit: RuleHit| #[trigger] hits.contains(hit) ==> more.contains(hit)
}

proof fn lemma_push_keeps(hits: Seq<RuleHit>, hit: RuleHit)
    ensures
        keeps_hits(hits, hits.push(hit)),
        hits.push(hit).contains(hit),
{
    let more = hits.push(hit);
    assert(more[hits.len() as int] == hit);
    assert forall|other: RuleHit| #[trigger] hits.contains(other) implies more.contains(other) by {
        let k = hits.index_of(other);
        assert(more[k] == other);
    }
}

/// All hits of rule `r` on the path `queue[m]` are taken in.
spec fn is_covered(
    rules: Seq<RuleView>,
    queue: Seq<Seq<char>>,
    hits: Seq<RuleHit>,
    m: int,
    r: int,
) -> bool {
    fires(rules, r, queue[m]) ==> forall|j: int|
        0 <= j < rules[r].dependents.len() ==> hits.contains(#[trigger] hit_of(m, r, j))
}

spec fn hit_of(m: int, r: int, j: int) -> RuleHit {
    RuleHit { m, r, j }
}

/// Takes all hits of one rule on one path in.
fn apply_rule(
    updates: &mut UpdateMap,
    seeds: &mut Vec<String>,
    generated: &mut Vec<GeneratedUpdate>,
    rule: &UpdateOnRule,
    Ghost(rules): Ghost<Seq<RuleView>>,
    Ghost(first): Ghost<int>,
    Ghost(levels): Ghost<Seq<int>>,
    Ghost(hits): Ghost<Seq<RuleHit>>,
    Ghost(level): Ghost<int>,
    Ghost(m): Ghost<int>,
    Ghost(r): Ghost<int>,
    Ghost(before): Ghost<Map<Seq<Seq<char>>, EntryView>>,
) -> (taken: (Ghost<Seq<int>>, Ghost<Seq<RuleHit>>))
    requires
        old(updates).well_formed(),
        walk_holds(
            rules,
            first,
            paths::views(old(seeds)@),
            levels,
            hits,
            level,
            r,
            before,
            old(updates)@,
            old(generated)@,
        ),
        old(seeds)@.len() == levels.len(),
        0 <= m < old(seeds)@.len(),
        fires(rules, r, paths::views(old(seeds)@)[m]),
        rules[r] == rule@,
        levels[m] == level,
        level >= 0,
    ensures
        final(updates).well_formed(),
        walk_holds(
            rules,
            first,
            paths::views(final(seeds)@),
            taken.0@,
            taken.1@,
            level,
            r,
            before,
            final(updates)@,
            final(generated)@,
        ),
        final(seeds)@.len() == taken.0@.len(),
        old(seeds)@.len() <= final(seeds)@.len(),
        paths::views(final(seeds)@).take(old(seeds)@.len() as int) == paths::views(old(seeds)@),
        taken.0@.take(levels.len() as int) == levels,
        forall|k: int| levels.len() <= k < taken.0@.len() ==> #[trigger] taken.0@[k] == level + 1,
        keeps_hits(hits, taken.1@),
        is_covered(rules, paths::views(final(seeds)@), taken.1@, m, r),
        final(seeds)@.len() + paths::places_missing(
            dependent_places(rules),
            paths::place_set(final(seeds)@),
        ) <= old(seeds)@.len() + paths::places_missing(
            dependent_places(rules),
            paths::place_set(old(seeds)@),
        ),
{
    let ghost mut now = levels;
    let ghost mut all = hits;
    let ghost queue = paths::views(seeds@);
    let ghost bound = seeds@.len() + paths::places_missing(
        dependent_places(rules),
        paths::place_set(seeds@),
    );
    let mut j: usize = 0;
    proof {
        assert(queue.take(queue.len() as int) =~= queue);
        assert(levels.take(levels.len() as int) =~= levels);
    }
    while j < rule.dependents.len()
        invariant
            j <= rule.dependents@.len(),
            updates.well_formed(),
            queue == paths::views(old(seeds)@),
            walk_holds(
                rules,
                first,
                paths::views(seeds@),
                now,
                all,
                level,
                r,
                before,
                updates@,
                generated@,
            ),
            seeds@.len() == now.len(),
            levels.len() == old(seeds)@.len() <= seeds@.len(),
            0 <= m < old(seeds)@.len(),
            paths::views(seeds@).take(old(seeds)@.len() as int) == queue,
            now.take(levels.len() as int) == levels,
            forall|k: int| levels.len() <= k < now.len() ==> #[trigger] now[k] == level + 1,
            fires(rules, r, queue[m]),
            rules[r] == rule@,
            levels[m] == level,
            level >= 0,
            keeps_hits(hits, all),
            forall|i: int| 0 <= i < j ==> all.contains(#[trigger] hit_of(m, r, i)),
            seeds@.len() + paths::places_missing(
                dependent_places(rules),
                paths::place_set(seeds@),
            ) <= bound,
        decreases rule.dependents@.len() - j,
    {
        let ghost hit = hit_of(m, r, j as int);
        let ghost earlier = paths::views(seeds@);
        let ghost old_set = paths::place_set(seeds@);
        proof {
            assert(earlier.take(queue.len() as int)[m] == earlier[m]);
            assert(now.take(levels.len() as int)[m] == now[m]);
            assert(rules[r].dependents[j as int] == rule.dependents@[j as int]@);
            assert(is_rule_hit(
                rules,
                earlier,
                paths::components(rule.dependents@[j as int]@),
                m,
                r,
                j as int,
            ));
        }
        let Ghost(grown): Ghost<Seq<int>> = take_hit(
            updates,
            seeds,
            generated,
            rule.trigger.as_str(),
            rule.dependents[j].as_str(),
            Ghost(rules),
            Ghost(first),
            Ghost(now),
            Ghost(all),
            Ghost(level),
            Ghost(hit),
            Ghost(before),
        );
        proof {
            reveal(walk_holds);
            lemma_push_keeps(all, hit);
            lemma_dependent_place(rules, r, j as int);
            paths::places_missing_shrinks(
                dependent_places(rules),
                old_set,
                paths::components(rules[r].dependents[j as int]),
            );
            assert(paths::views(seeds@).take(queue.len() as int) =~= queue) by {
                let later = paths::views(seeds@);
                assert forall|k: int| 0 <= k < queue.len() implies later[k] == queue[k] by {
                    assert(later.take(earlier.len() as int)[k] == later[k]);
                    assert(earlier.take(queue.len() as int)[k] == earlier[k]);
                }
            }
            assert forall|k: int| 0 <= k < now.len() implies grown[k] == #[trigger] now[k] by {
                assert(grown.take(now.len() as int)[k] == grown[k]);
            }
            assert(grown.take(levels.len() as int) =~= levels) by {
                assert forall|k: int| 0 <= k < levels.len() implies grown[k] == levels[k] by {
                    assert(now.take(levels.len() as int)[k] == now[k]);
                }
            }
            assert forall|k: int| levels.len() <= k < grown.len() implies #[trigger] grown[k]
                == level + 1 by {
                if k < now.len() {
                    assert(grown[k] == now[k]);
                }
            }
            now = grown;
            all = all.push(hit);
        }
        j = j + 1;
    }
    proof {
        assert(paths::views(seeds@)[m] == queue[m]) by {
            assert(paths::views(seeds@).take(queue.len() as int)[m] == paths::views(seeds@)[m]);
        }
    }
    (Ghost(now), Ghost(all))
}

/// Moving on to a later rule or level keeps what holds.
proof fn lemma_walk_moves_on(
    rules: Seq<RuleView>,
    seeds: int,
    queue: Seq<Seq<char>>,
    levels: Seq<int>,
    hits: Seq<RuleHit>,
    level: int,
    r: int,
    next_level: int,
    next_r: int,
    before: Map<Seq<Seq<char>>, EntryView>,
    updates: Map<Seq<Seq<char>>, EntryView>,
    generated: Seq<GeneratedUpdate>,
)
    requires
        walk_holds(rules, seeds, queue, levels, hits, level, r, before, updates, generated),
        comes_first(level, r, next_level, next_r),
    ensures
        walk_holds(
            rules,
            seeds,
            queue,
            levels,
            hits,
            next_level,
            next_r,
            before,
            updates,
            generated,
        ),
{
    reveal(walk_holds);
}

/// All hits of the rules below `r` on the paths of a level are taken in.
spec fn is_level_covered(
    rules: Seq<RuleView>,
    queue: Seq<Seq<char>>,
    hits: Seq<RuleHit>,
    lo: int,
    hi: int,
    r: int,
) -> bool {
    forall|m: int, q: int|
        lo <= m < hi && 0 <= q < r ==> #[trigger] is_covered(rules, queue, hits, m, q)
}

/// More hits and a longer queue keep a rule covered.
proof fn lemma_stays_covered(
    rules: Seq<RuleView>,
    queue: Seq<Seq<char>>,
    longer: Seq<Seq<char>>,
    hits: Seq<RuleHit>,
    more: Seq<RuleHit>,
    m: int,
    r: int,
)
    requires
        is_covered(rules, queue, hits, m, r),
        keeps_hits(hits, more),
        0 <= m < queue.len() <= longer.len(),
        longer.take(queue.len() as int) == queue,
    ensures
        is_covered(rules, longer, more, m, r),
{
    assert(longer.take(queue.len() as int)[m] == longer[m]);
}

/// `queue[lo..hi]` holds `path`.
spec fn is_in_level(queue: Seq<Seq<char>>, lo: int, hi: int, path: Seq<char>) -> bool {
    exists|k: int| lo <= k < hi && #[trigger] queue[k] == path
}

/// `batch` lists the paths `queue[lo..hi]`.
spec fn lists_level(queue: Seq<Seq<char>>, lo: int, hi: int, batch: Seq<Seq<char>>) -> bool {
    &&& forall|p: int| 0 <= p < batch.len() ==> is_in_level(queue, lo, hi, #[trigger] batch[p])
    &&& forall|k: int| lo <= k < hi ==> batch.contains(#[trigger] queue[k])
}

/// Applies one rule to all paths of a level.
fn apply_rule_to_level(
    updates: &mut UpdateMap,
    seeds: &mut Vec<String>,
    generated: &mut Vec<GeneratedUpdate>,
    rule: &UpdateOnRule,
    batch: &Vec<String>,
    Ghost(rules): Ghost<Seq<RuleView>>,
    Ghost(first): Ghost<int>,
    Ghost(levels): Ghost<Seq<int>>,
    Ghost(hits): Ghost<Seq<RuleHit>>,
    Ghost(level): Ghost<int>,
    Ghost(lo): Ghost<int>,
    Ghost(hi): Ghost<int>,
    Ghost(r): Ghost<int>,
    Ghost(before): Ghost<Map<Seq<Seq<char>>, EntryView>>,
) -> (taken: (Ghost<Seq<int>>, Ghost<Seq<RuleHit>>))
    requires
        old(updates).well_formed(),
        walk_holds(
            rules,
            first,
            paths::views(old(seeds)@),
            levels,
            hits,
            level,
            r,
            before,
            old(updates)@,
            old(generated)@,
        ),
        old(seeds)@.len() == levels.len(),
        0 <= lo <= hi <= levels.len(),
        0 <= r < rules.len(),
        rules[r] == rule@,
        level >= 0,
        forall|k: int| lo <= k < hi ==> #[trigger] levels[k] == level,
        forall|k: int, l: int|
            lo <= k < l < hi ==> #[trigger] paths::views(old(seeds)@)[k]
                != #[trigger] paths::views(old(seeds)@)[l],
        lists_level(paths::views(old(seeds)@), lo, hi, paths::views(batch@)),
    ensures
        final(updates).well_formed(),
        walk_holds(
            rules,
            first,
            paths::views(final(seeds)@),
            taken.0@,
            taken.1@,
            level,
            r,
            before,
            final(updates)@,
            final(generated)@,
        ),
        final(seeds)@.len() == taken.0@.len(),
        old(seeds)@.len() <= final(seeds)@.len(),
        paths::views(final(seeds)@).take(old(seeds)@.len() as int) == paths::views(old(seeds)@),
        taken.0@.take(levels.len() as int) == levels,
        forall|k: int| levels.len() <= k < taken.0@.len() ==> #[trigger] taken.0@[k] == level + 1,
        keeps_hits(hits, taken.1@),
        forall|m: int|
            lo <= m < hi ==> #[trigger] is_covered(
                rules,
                paths::views(final(seeds)@),
                taken.1@,
                m,
                r,
            ),
        final(seeds)@.len() + paths::places_missing(
            dependent_places(rules),
            paths::place_set(final(seeds)@),
        ) <= old(seeds)@.len() + paths::places_missing(
            dependent_places(rules),
            paths::place_set(old(seeds)@),
        ),
{
    let ghost mut now = levels;
    let ghost mut all = hits;
    let ghost queue = paths::views(seeds@);
    let ghost bound = seeds@.len() + paths::places_missing(
        dependent_places(rules),
        paths::place_set(seeds@),
    );
    let mut p: usize = 0;
    proof {
        assert(queue.take(queue.len() as int) =~= queue);
        assert(levels.take(levels.len() as int) =~= levels);
    }
    while p < batch.len()
        invariant
            p <= batch@.len(),
            updates.well_formed(),
            queue == paths::views(old(seeds)@),
            walk_holds(
                rules,
                first,
                paths::views(seeds@),
                now,
                all,
                level,
                r,
                before,
                updates@,
                generated@,
            ),
            seeds@.len() == now.len(),
            levels.len() == old(seeds)@.len() <= seeds@.len(),
            0 <= lo <= hi <= levels.len(),
            0 <= r < rules.len(),
            rules[r] == rule@,
            level >= 0,
            forall|k: int| lo <= k < hi ==> #[trigger] levels[k] == level,
            forall|k: int, l: int|
                lo <= k < l < hi ==> #[trigger] queue[k] != #[trigger] queue[l],
            lists_level(queue, lo, hi, paths::views(batch@)),
            paths::views(seeds@).take(old(seeds)@.len() as int) == queue,
            now.take(levels.len() as int) == levels,
            forall|k: int| levels.len() <= k < now.len() ==> #[trigger] now[k] == level + 1,
            keeps_hits(hits, all),
            forall|m: int, q: int|
                lo <= m < hi && 0 <= q < p && #[trigger] queue[m] == #[trigger] paths::views(
                    batch@,
                )[q] ==> is_covered(rules, paths::views(seeds@), all, m, r),
            seeds@.len() + paths::places_missing(
                dependent_places(rules),
                paths::place_set(seeds@),
            ) <= bound,
        decreases batch@.len() - p,
    {
        let ghost m = choose|k: int| lo <= k < hi && #[trigger] queue[k] == paths::views(
            batch@,
        )[p as int];
        let ghost earlier = paths::views(seeds@);
        let ghost old_hits = all;
        proof {
            assert(is_in_level(queue, lo, hi, paths::views(batch@)[p as int]));
            assert(batch@[p as int]@ == queue[m]);
            assert(earlier.take(queue.len() as int)[m] == earlier[m]);
            assert(now.take(levels.len() as int)[m] == now[m]);
            assert(earlier.take(earlier.len() as int) =~= earlier);
        }
        let text: String = paths::normalize_path_separators_of(batch[p].as_str());
        if glob_accepts(rule.trigger.as_str(), text.as_str()) {
            let (Ghost(grown), Ghost(more)): (Ghost<Seq<int>>, Ghost<Seq<RuleHit>>) = apply_rule(
                updates,
                seeds,
                generated,
                rule,
                Ghost(rules),
                Ghost(first),
                Ghost(now),
                Ghost(all),
                Ghost(level),
                Ghost(m),
                Ghost(r),
                Ghost(before),
            );
            proof {
                let later = paths::views(seeds@);
                assert(later.take(queue.len() as int) =~= queue) by {
                    assert forall|k: int| 0 <= k < queue.len() implies later[k] == queue[k] by {
                        assert(later.take(earlier.len() as int)[k] == later[k]);
                        assert(earlier.take(queue.len() as int)[k] == earlier[k]);
                    }
                }
                assert forall|k: int| 0 <= k < now.len() implies grown[k] == #[trigger] now[k] by {
                    assert(grown.take(now.len() as int)[k] == grown[k]);
                }
                assert(grown.take(levels.len() as int) =~= levels) by {
                    assert forall|k: int| 0 <= k < levels.len() implies grown[k] == levels[k] by {
                        assert(now.take(levels.len() as int)[k] == now[k]);
                    }
                }
                assert forall|k: int| levels.len() <= k < grown.len() implies #[trigger] grown[k]
                    == level + 1 by {
                    if k < now.len() {
                        assert(grown[k] == now[k]);
                    }
                }
                now = grown;
                all = more;
            }
        } else {
            proof {
                assert(is_covered(rules, earlier, all, m, r));
            }
        }
        proof {
            let later = paths::views(seeds@);
            assert forall|m2: int, q: int|
                lo <= m2 < hi && 0 <= q < p + 1 && #[trigger] queue[m2] == #[trigger] paths::views(
                    batch@,
                )[q] implies is_covered(rules, later, all, m2, r) by {
                if q < p {
                    lemma_stays_covered(rules, earlier, later, old_hits, all, m2, r);
                } else {
                    assert(queue[m2] == queue[m]);
                    assert(m2 == m);
                }
            }
        }
        p = p + 1;
    }
    proof {
        assert forall|m: int| lo <= m < hi implies #[trigger] is_covered(
            rules,
            paths::views(seeds@),
            all,
            m,
            r,
        ) by {
            assert(paths::views(batch@).contains(queue[m]));
            let q = paths::views(batch@).index_of(queue[m]);
            assert(queue[m] == paths::views(batch@)[q]);
        }
    }
    (Ghost(now), Ghost(all))
}

/// A copy of `list[lo..hi]`, in canonical order.
fn sorted_batch(list: &Vec<String>, lo: usize, hi: usize) -> (batch: Vec<String>)
    requires
        lo <= hi <= list@.len(),
    ensures
        lists_level(paths::views(list@), lo as int, hi as int, paths::views(batch@)),
{
    let mut part: Vec<String> = Vec::new();
    let mut i: usize = lo;
    while i < hi
        invariant
            lo <= i <= hi <= list@.len(),
            part@.len() == i - lo,
            forall|k: int| 0 <= k < i - lo ==> (#[trigger] part@[k])@ == list@[lo + k]@,
        decreases hi - i,
    {
        part.push(list[i].clone());
        i = i + 1;
    }
    let batch: Vec<String> = paths::sorted_paths(&part);
    proof {
        broadcast use vstd::seq_lib::group_to_multiset_ensures;

        let queue = paths::views(list@);
        let from = paths::views(part@);
        let to = paths::views(batch@);
        assert forall|p: int| 0 <= p < to.len() implies is_in_level(
            queue,
            lo as int,
            hi as int,
            #[trigger] to[p],
        ) by {
            assert(to.contains(to[p]));
            assert(to.to_multiset().contains(to[p]));
            assert(from.contains(to[p]));
            let k = from.index_of(to[p]);
            assert(queue[lo + k] == to[p]);
        }
        assert forall|k: int| lo <= k < hi implies to.contains(#[trigger] queue[k]) by {
            assert(from[k - lo] == queue[k]);
            assert(from.contains(queue[k]));
            assert(from.to_multiset().contains(queue[k]));
        }
    }
    batch
}

/// A trigger that is no valid pattern.
#[derive(Debug)]
pub struct InvalidTrigger {
    pub pattern: String,
}

impl InvalidTrigger {
    /// The message shown to the user.
    pub fn message(&self) -> (message: String)
        ensures
            message@ == "invalid glob pattern in updateOn config: "@ + self.pattern@,
    {
        joined_text("invalid glob pattern in updateOn config: ", self.pattern.as_str())
    }
}

/// Every trigger is a valid pattern.
pub open spec fn all_valid(rules: Seq<RuleView>) -> bool {
    forall|r: int| 0 <= r < rules.len() ==> glob_is_valid((#[trigger] rules[r]).trigger)
}

/// Rule `r` is the first one whose trigger is no valid pattern.
pub open spec fn is_first_invalid(rules: Seq<RuleView>, r: int) -> bool {
    &&& 0 <= r < rules.len()
    &&& !glob_is_valid(rules[r].trigger)
    &&& forall|q: int| 0 <= q < r ==> glob_is_valid((#[trigger] rules[q]).trigger)
}

fn check_triggers(rules: &Vec<UpdateOnRule>) -> (checked: Result<(), InvalidTrigger>)
    ensures
        match checked {
            Ok(_) => all_valid(config::rule_views(rules@)),
            Err(invalid) => exists|r: int| #[trigger]
                is_first_invalid(config::rule_views(rules@), r) && config::rule_views(
                    rules@,
                )[r].trigger == invalid.pattern@,
        },
{
    let ghost all = config::rule_views(rules@);
    let mut r: usize = 0;
    while r < rules.len()
        invariant
            r <= rules@.len(),
            all == config::rule_views(rules@),
            forall|q: int| 0 <= q < r ==> glob_is_valid((#[trigger] all[q]).trigger),
        decreases rules@.len() - r,
    {
        proof {
            assert(all[r as int] == rules@[r as int]@);
        }
        if !glob_compiles(rules[r].trigger.as_str()) {
            proof {
                assert(is_first_invalid(all, r as int));
            }
            return Err(InvalidTrigger { pattern: rules[r].trigger.clone() });
        }
        r = r + 1;
    }
    Ok(())
}

/// There are rules, updates and seeds to work on.
pub open spec fn has_rule_work(
    rules: Seq<RuleView>,
    updates: Map<Seq<Seq<char>>, EntryView>,
    seeds: Seq<String>,
) -> bool {
    rules.len() > 0 && updates != Map::<Seq<Seq<char>>, EntryView>::empty() && seeds.len() > 0
}

/// Schedules a patch of every dependent that the rules reach from the seeds,
/// level by level, and makes each reached path a seed. Updates that are
/// already scheduled stay as they are. All triggers are checked first.
pub fn apply_update_on_rules_from(
    update_map: &mut UpdateMap,
    rules: &Vec<UpdateOnRule>,
    expansion_seeds: &mut Vec<String>,
) -> (result: Result<Vec<GeneratedUpdate>, InvalidTrigger>)
    requires
        old(update_map).well_formed(),
        paths::distinct_paths(old(expansion_seeds)@),
    ensures
        final(update_map).well_formed(),
        paths::distinct_paths(final(expansion_seeds)@),
        match result {
            Ok(generated) => {
                let all = config::rule_views(rules@);
                let queue = paths::views(final(expansion_seeds)@);
                let first = old(expansion_seeds)@.len() as int;
                &&& all_valid(all)
                &&& apply_reverse_dependencies::lists_generated(
                    generated@,
                    old(update_map)@,
                    final(update_map)@,
                )
                &&& first <= queue.len()
                &&& queue.take(first) == paths::views(old(expansion_seeds)@)
                &&& if has_rule_work(all, old(update_map)@, old(expansion_seeds)@) {
                    exists|levels: Seq<int>| #[trigger]
                        is_rule_walk(all, first, queue, levels) && is_rule_expanded(
                            all,
                            queue,
                            levels,
                            old(update_map)@,
                            final(update_map)@,
                        )
                } else {
                    &&& generated@.len() == 0
                    &&& *final(update_map) == *old(update_map)
                    &&& *final(expansion_seeds) == *old(expansion_seeds)
                }
            },
            Err(invalid) => {
                &&& exists|r: int| #[trigger]
                    is_first_invalid(config::rule_views(rules@), r) && config::rule_views(
                        rules@,
                    )[r].trigger == invalid.pattern@
                &&& *final(update_map) == *old(update_map)
                &&& *final(expansion_seeds) == *old(expansion_seeds)
            },
        },
{
    let ghost all = config::rule_views(rules@);
    let ghost before = update_map@;
    let ghost first = expansion_seeds@.len() as int;
    let ghost seed_texts = paths::views(expansion_seeds@);
    match check_triggers(rules) {
        Ok(_) => {},
        Err(invalid) => {
            return Err(invalid);
        },
    }
    let mut generated: Vec<GeneratedUpdate> = Vec::new();
    proof {
        assert(seed_texts.take(first) =~= seed_texts);
    }
    if rules.len() == 0 || update_map.is_empty() || expansion_seeds.len() == 0 {
        return Ok(generated);
    }
    let ghost mut levels: Seq<int> = Seq::new(first as nat, |k: int| 0int);
    let ghost mut hits: Seq<RuleHit> = Seq::empty();
    let ghost mut level: int = 0;
    let ghost bound = expansion_seeds@.len() + paths::places_missing(
        dependent_places(all),
        paths::place_set(expansion_seeds@),
    );
    let mut lo: usize = 0;
    proof {
        reveal(walk_holds);
        assert(walk_holds(
            all,
            first,
            seed_texts,
            levels,
            hits,
            level,
            0,
            before,
            update_map@,
            generated@,
        ));
    }
    while lo < expansion_seeds.len()
        invariant
            lo <= expansion_seeds@.len(),
            update_map.well_formed(),
            paths::distinct_paths(expansion_seeds@),
            all == config::rule_views(rules@),
            all_valid(all),
            first == old(expansion_seeds)@.len(),
            paths::distinct_paths(old(expansion_seeds)@),
            seed_texts == paths::views(old(expansion_seeds)@),
            first <= expansion_seeds@.len() == levels.len(),
            paths::views(expansion_seeds@).take(first) == seed_texts,
            walk_holds(
                all,
                first,
                paths::views(expansion_seeds@),
                levels,
                hits,
                level,
                0,
                before,
                update_map@,
                generated@,
            ),
            level >= 0,
            forall|k: int| lo <= k < levels.len() ==> #[trigger] levels[k] == level,
            is_level_covered(
                all,
                paths::views(expansion_seeds@),
                hits,
                0,
                lo as int,
                all.len() as int,
            ),
            expansion_seeds@.len() + paths::places_missing(
                dependent_places(all),
                paths::place_set(expansion_seeds@),
            ) <= bound,
        decreases bound - lo,
    {
        let hi: usize = expansion_seeds.len();
        let batch: Vec<String> = sorted_batch(expansion_seeds, lo, hi);
        let ghost queue = paths::views(expansion_seeds@);
        let ghost old_levels = levels;
        proof {
            assert forall|k: int, l: int| lo <= k < l < hi implies #[trigger] queue[k]
                != #[trigger] queue[l] by {
                assert(paths::components(expansion_seeds@[k]@) != paths::components(
                    expansion_seeds@[l]@,
                ));
            }
            assert(queue.take(hi as int) =~= queue);
            assert(levels.take(hi as int) =~= levels);
        }
        let mut r: usize = 0;
        while r < rules.len()
            invariant
                r <= rules@.len(),
                update_map.well_formed(),
                all == config::rule_views(rules@),
                lo <= hi <= expansion_seeds@.len() == levels.len(),
                queue.len() == hi == old_levels.len(),
                paths::views(expansion_seeds@).take(hi as int) == queue,
                levels.take(hi as int) == old_levels,
                forall|k: int| hi <= k < levels.len() ==> #[trigger] levels[k] == level + 1,
                forall|k: int| lo <= k < hi ==> #[trigger] old_levels[k] == level,
                forall|k: int, l: int|
                    lo <= k < l < hi ==> #[trigger] queue[k] != #[trigger] queue[l],
                lists_level(queue, lo as int, hi as int, paths::views(batch@)),
                level >= 0,
                walk_holds(
                    all,
                    first,
                    paths::views(expansion_seeds@),
                    levels,
                    hits,
                    level,
                    r as int,
                    before,
                    update_map@,
                    generated@,
                ),
                is_level_covered(
                    all,
                    paths::views(expansion_seeds@),
                    hits,
                    0,
                    lo as int,
                    all.len() as int,
                ),
                is_level_covered(
                    all,
                    paths::views(expansion_seeds@),
                    hits,
                    lo as int,
                    hi as int,
                    r as int,
                ),
                expansion_seeds@.len() + paths::places_missing(
                    dependent_places(all),
                    paths::place_set(expansion_seeds@),
                ) <= bound,
            decreases rules@.len() - r,
        {
            let ghost earlier = paths::views(expansion_seeds@);
            let ghost old_hits = hits;
            proof {
                assert(all[r as int] == rules@[r as int]@);
                assert forall|k: int| 0 <= k < hi implies #[trigger] earlier[k] == queue[k] by {
                    assert(earlier.take(hi as int)[k] == earlier[k]);
                }
                assert forall|k: int| 0 <= k < hi implies #[trigger] levels[k]
                    == old_levels[k] by {
                    assert(levels.take(hi as int)[k] == levels[k]);
                }
                assert(lists_level(earlier, lo as int, hi as int, paths::views(batch@))) by {
                    assert forall|p: int| 0 <= p < batch@.len() implies is_in_level(
                        earlier,
                        lo as int,
                        hi as int,
                        #[trigger] paths::views(batch@)[p],
                    ) by {
                        assert(is_in_level(queue, lo as int, hi as int, paths::views(batch@)[p]));
                        let k = choose|k: int|
                            lo <= k < hi && #[trigger] queue[k] == paths::views(batch@)[p];
                        assert(earlier[k] == queue[k]);
                    }
                }
            }
            let (Ghost(grown), Ghost(more)): (Ghost<Seq<int>>, Ghost<Seq<RuleHit>>) =
                apply_rule_to_level(
                update_map,
                expansion_seeds,
                &mut generated,
                &rules[r],
                &batch,
                Ghost(all),
                Ghost(first),
                Ghost(levels),
                Ghost(hits),
                Ghost(level),
                Ghost(lo as int),
                Ghost(hi as int),
                Ghost(r as int),
                Ghost(before),
            );
            proof {
                let later = paths::views(expansion_seeds@);
                assert forall|k: int| 0 <= k < earlier.len() implies #[trigger] later[k]
                    == earlier[k] by {
                    assert(later.take(earlier.len() as int)[k] == later[k]);
                }
                assert(later.take(hi as int) =~= queue);
                assert forall|k: int| 0 <= k < levels.len() implies #[trigger] grown[k]
                    == levels[k] by {
                    assert(grown.take(levels.len() as int)[k] == grown[k]);
                }
                assert(grown.take(hi as int) =~= old_levels);
                assert forall|m: int, q: int|
                    0 <= m < lo && 0 <= q < all.len() implies #[trigger] is_covered(
                    all,
                    later,
                    more,
                    m,
                    q,
                ) by {
                    assert(is_covered(all, earlier, old_hits, m, q));
                    lemma_stays_covered(all, earlier, later, old_hits, more, m, q);
                }
                assert forall|m: int, q: int|
                    lo <= m < hi && 0 <= q < r + 1 implies #[trigger] is_covered(
                    all,
                    later,
                    more,
                    m,
                    q,
                ) by {
                    if q < r {
                        assert(is_covered(all, earlier, old_hits, m, q));
                        lemma_stays_covered(all, earlier, later, old_hits, more, m, q);
                    }
                }
                levels = grown;
                hits = more;
                lemma_walk_moves_on(
                    all,
                    first,
                    later,
                    levels,
                    hits,
                    level,
                    r as int,
                    level,
                    r + 1,
                    before,
                    update_map@,
                    generated@,
                );
            }
            r = r + 1;
        }
        proof {
            let later = paths::views(expansion_seeds@);
            lemma_walk_moves_on(
                all,
                first,
                later,
                levels,
                hits,
                level,
                r as int,
                level + 1,
                0,
                before,
                update_map@,
                generated@,
            );
            level = level + 1;
            assert(later.take(first) =~= seed_texts) by {
                assert forall|k: int| 0 <= k < first implies later[k] == seed_texts[k] by {
                    assert(later.take(hi as int)[k] == later[k]);
                    assert(queue.take(first)[k] == queue[k]);
                }
            }
            assert(paths::distinct_paths(expansion_seeds@)) by {
                lemma_walk_is_distinct(
                    all,
                    first,
                    expansion_seeds@,
                    levels,
                    hits,
                    level,
                    before,
                    update_map@,
                    generated@,
                    old(expansion_seeds)@,
                );
            }
            assert forall|m: int, q: int|
                0 <= m < hi && 0 <= q < all.len() implies #[trigger] is_covered(
                all,
                later,
                hits,
                m,
                q,
            ) by {}
        }
        lo = hi;
    }
    proof {
        lemma_walk_done(
            all,
            first,
            paths::views(expansion_seeds@),
            levels,
            hits,
            level,
            before,
            update_map@,
            generated@,
        );
    }
    Ok(generated)
}

/// The queued paths are different ones.
proof fn lemma_walk_is_distinct(
    rules: Seq<RuleView>,
    first: int,
    seeds: Seq<String>,
    levels: Seq<int>,
    hits: Seq<RuleHit>,
    level: int,
    before: Map<Seq<Seq<char>>, EntryView>,
    updates: Map<Seq<Seq<char>>, EntryView>,
    generated: Seq<GeneratedUpdate>,
    old_seeds: Seq<String>,
)
    requires
        walk_holds(
            rules,
            first,
            paths::views(seeds),
            levels,
            hits,
            level,
            0,
            before,
            updates,
            generated,
        ),
        paths::distinct_paths(old_seeds),
        first == old_seeds.len() <= seeds.len(),
        paths::views(seeds).take(first) == paths::views(old_seeds),
    ensures
        paths::distinct_paths(seeds),
{
    reveal(walk_holds);
    let queue = paths::views(seeds);
    assert forall|i: int, j: int| 0 <= i < j < seeds.len() implies paths::components(
        (#[trigger] seeds[i])@,
    ) != paths::components((#[trigger] seeds[j])@) by {
        assert(queue[i] == seeds[i]@);
        assert(queue[j] == seeds[j]@);
        if j < first {
            assert(queue.take(first)[i] == queue[i]);
            assert(queue.take(first)[j] == queue[j]);
            assert(paths::views(old_seeds)[i] == old_seeds[i]@);
            assert(paths::views(old_seeds)[j] == old_seeds[j]@);
        }
    }
}

/// What a finished walk gives.
proof fn lemma_walk_done(
    rules: Seq<RuleView>,
    first: int,
    queue: Seq<Seq<char>>,
    levels: Seq<int>,
    hits: Seq<RuleHit>,
    level: int,
    before: Map<Seq<Seq<char>>, EntryView>,
    updates: Map<Seq<Seq<char>>, EntryView>,
    generated: Seq<GeneratedUpdate>,
)
    requires
        walk_holds(
            rules,
            first,
            queue,
            levels,
            hits,
            level,
            0,
            before,
            updates,
            generated,
        ),
        is_level_covered(rules, queue, hits, 0, queue.len() as int, rules.len() as int),
    ensures
        is_rule_walk(rules, first, queue, levels),
        is_rule_expanded(rules, queue, levels, before, updates),
        apply_reverse_dependencies::lists_generated(generated, before, updates),
{
    reveal(walk_holds);
    assert forall|at: Seq<Seq<char>>, m: int, r: int, j: int| #[trigger]
        is_rule_hit(rules, queue, at, m, r, j) implies hits.contains(hit_of(m, r, j)) by {
        assert(is_covered(rules, queue, hits, m, r));
        assert(hits.contains(hit_of(m, r, j)));
    }
    assert forall|at: Seq<Seq<char>>, m: int, r: int, j: int| #[trigger]
        is_rule_hit(rules, queue, at, m, r, j) implies is_queued_by(
        queue,
        levels,
        at,
        levels[m] + 1,
    ) by {
        let h = hits.index_of(hit_of(m, r, j));
        assert(hits[h] == hit_of(m, r, j));
    }
    assert forall|at: Seq<Seq<char>>|
        #[trigger] is_rule_touched(rules, queue, hits, at) <==> is_rule_reached(
            rules,
            queue,
            at,
        ) by {
        if is_rule_reached(rules, queue, at) {
            let (m, r, j) = choose|m: int, r: int, j: int| #[trigger]
                is_rule_hit(rules, queue, at, m, r, j);
            let h = hits.index_of(hit_of(m, r, j));
            assert(rule_hit_at(rules, queue, hits, h, at));
        }
        if is_rule_touched(rules, queue, hits, at) {
            let h = choose|h: int| #[trigger] rule_hit_at(rules, queue, hits, h, at);
            assert(is_rule_hit(rules, queue, at, hits[h].m, hits[h].r, hits[h].j));
        }
    }
    assert forall|at: Seq<Seq<char>>| #[trigger]
        updates.contains_key(at) && !before.contains_key(at) implies is_rule_generated(
        rules,
        queue,
        levels,
        at,
        updates[at],
    ) by {
        assert(is_first_hit(rules, queue, levels, hits, at, updates[at]));
        let h = choose|h: int| #[trigger]
            rule_hit_at(rules, queue, hits, h, at) && updates[at] == (EntryView {
                path: rules[hits[h].r].dependents[hits[h].j],
                update_type: UpdateType::Patch,
                logs: seq![
                    LogView {
                        update_type: UpdateType::Patch,
                        note: rule_note(rules[hits[h].r].trigger),
                    },
                ],
            }) && forall|g: int| #[trigger]
                rule_hit_at(rules, queue, hits, g, at) ==> comes_first(
                    levels[hits[h].m],
                    hits[h].r,
                    levels[hits[g].m],
                    hits[g].r,
                );
        assert(is_rule_hit(rules, queue, at, hits[h].m, hits[h].r, hits[h].j));
        assert forall|m2: int, r2: int, j2: int| #[trigger]
            is_rule_hit(rules, queue, at, m2, r2, j2) implies comes_first(
            levels[hits[h].m],
            hits[h].r,
            levels[m2],
            r2,
        ) by {
            let g = hits.index_of(hit_of(m2, r2, j2));
            assert(hits[g] == hit_of(m2, r2, j2));
            assert(rule_hit_at(rules, queue, hits, g, at));
        }
    }
}

/// The note of an update names a trigger that reaches its place at the earliest
/// level, and of those the first in text order.
pub open spec fn is_noted_by_first_trigger(
    rules: Seq<RuleView>,
    queue: Seq<Seq<char>>,
    levels: Seq<int>,
    at: Seq<Seq<char>>,
    entry: EntryView,
) -> bool {
    exists|m: int, r: int, j: int| #[trigger]
        is_rule_hit(rules, queue, at, m, r, j) && entry.logs == seq![
            LogView { update_type: UpdateType::Patch, note: rule_note(rules[r].trigger) },
        ] && forall|m2: int, r2: int, j2: int| #[trigger]
            is_rule_hit(rules, queue, at, m2, r2, j2) ==> levels[m] <= levels[m2] && (levels[m]
                == levels[m2] ==> text::text_le(rules[r].trigger, rules[r2].trigger))
}

/// Of the triggers that reach a place at the same level, the first in text
/// order names the generated update.
pub proof fn first_trigger_owns_the_note(
    config: config::Config,
    queue: Seq<Seq<char>>,
    levels: Seq<int>,
    at: Seq<Seq<char>>,
    entry: EntryView,
)
    requires
        config.well_formed(),
        is_rule_generated(config::rule_views(config.update_on@), queue, levels, at, entry),
    ensures
        is_noted_by_first_trigger(
            config::rule_views(config.update_on@),
            queue,
            levels,
            at,
            entry,
        ),
{
    let rules = config::rule_views(config.update_on@);
    let (m, r, j) = choose|m: int, r: int, j: int| #[trigger]
        is_rule_hit(rules, queue, at, m, r, j) && entry == (EntryView {
            path: rules[r].dependents[j],
            update_type: UpdateType::Patch,
            logs: seq![
                LogView { update_type: UpdateType::Patch, note: rule_note(rules[r].trigger) },
            ],
        }) && forall|m2: int, r2: int, j2: int| #[trigger]
            is_rule_hit(rules, queue, at, m2, r2, j2) ==> comes_first(
                levels[m],
                r,
                levels[m2],
                r2,
            );
    assert forall|m2: int, r2: int, j2: int| #[trigger]
        is_rule_hit(rules, queue, at, m2, r2, j2) implies levels[m] <= levels[m2] && (levels[m]
        == levels[m2] ==> text::text_le(rules[r].trigger, rules[r2].trigger)) by {
        assert(comes_first(levels[m], r, levels[m2], r2));
        assert(rules[r].trigger == config.update_on@[r].trigger@);
        assert(rules[r2].trigger == config.update_on@[r2].trigger@);
        if r < r2 {
            assert(text::text_lt(config.update_on@[r].trigger@, config.update_on@[r2].trigger@));
        }
    }
}

} // verus!
