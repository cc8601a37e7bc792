//! What a plan holds, and where it says that it comes from.

use crate::apply_reverse_dependencies;
use crate::apply_reverse_dependencies::GeneratedUpdate;
use crate::config::RuleView;
use crate::gen_update_map;
use crate::gen_update_map::{LogFile, Mention};
use crate::paths;
use crate::update_map::{EntryView, LogView};
use crate::update_on;
use crate::update_plan;
use crate::update_plan::{
    ChangePackLogView, GeneratedState, MergedPair, ProvenanceView, UpdatePlan,
};
use crate::update_type::UpdateType;
use vstd::prelude::*;
use vstd::string::*;

verus! {

/// What the generated updates are recorded as.
proof fn lemma_recorded(
    origins: Map<Seq<Seq<char>>, ProvenanceView>,
    generated: Seq<GeneratedUpdate>,
    g: int,
)
    requires
        0 <= g < generated.len(),
        forall|a: int, b: int|
            0 <= a < b < generated.len() ==> paths::components((#[trigger] generated[a]).path@)
                != paths::components((#[trigger] generated[b]).path@),
    ensures
        update_plan::with_generated(origins, generated).contains_key(
            paths::components(generated[g].path@),
        ),
        update_plan::with_generated(origins, generated)[paths::components(generated[g].path@)]
            == (ProvenanceView::Generated {
            notes: seq![generated[g].note@],
            state: GeneratedState::Fresh,
        }),
    decreases generated.len(),
{
    let last = generated.len() - 1;
    if g < last {
        let less = generated.drop_last();
        assert forall|a: int, b: int| 0 <= a < b < less.len() implies paths::components(
            (#[trigger] less[a]).path@,
        ) != paths::components((#[trigger] less[b]).path@) by {
            assert(less[a] == generated[a] && less[b] == generated[b]);
        }
        lemma_recorded(origins, less, g);
        assert(less[g] == generated[g]);
        assert(generated[last] == generated.last());
        assert(paths::components(generated[g].path@) != paths::components(generated[last].path@));
    }
}

/// A new update is recorded as freshly generated, under the note of its only
/// changelog line; what is recorded of every other path stays.
pub proof fn new_updates_are_recorded_as_fresh(
    origins: Map<Seq<Seq<char>>, ProvenanceView>,
    generated: Seq<GeneratedUpdate>,
    before: Map<Seq<Seq<char>>, EntryView>,
    after: Map<Seq<Seq<char>>, EntryView>,
    at: Seq<Seq<char>>,
)
    requires
        apply_reverse_dependencies::lists_generated(generated, before, after),
    ensures
        ({
            let recorded = update_plan::with_generated(origins, generated);
            &&& after.contains_key(at) && !before.contains_key(at) ==> recorded.contains_key(at)
                && after[at].logs.len() == 1 && recorded[at] == (ProvenanceView::Generated {
                notes: seq![after[at].logs[0].note],
                state: GeneratedState::Fresh,
            })
            &&& !after.contains_key(at) || before.contains_key(at) ==> (recorded.contains_key(at)
                <==> origins.contains_key(at)) && (origins.contains_key(at) ==> recorded[at]
                == origins[at])
        }),
{
    if after.contains_key(at) && !before.contains_key(at) {
        let g = choose|g: int|
            0 <= g < generated.len() && paths::components((#[trigger] generated[g]).path@) == at;
        lemma_recorded(origins, generated, g);
        assert(after[at].logs[0].note == generated[g].note@);
    } else {
        assert forall|g: int| 0 <= g < generated.len() implies paths::components(
            (#[trigger] generated[g]).path@,
        ) != at by {}
        update_plan::lemma_with_generated_elsewhere(origins, generated, at);
    }
}

/// The paths of authored bumps are seeds, as they are first written.
proof fn lemma_first_written(all: Seq<Mention>, m: int) -> (s: int)
    requires
        0 <= m < all.len(),
        !all[m].carried,
        forall|k: int|
            0 <= k < m ==> (#[trigger] all[k]).carried || paths::components(all[k].path)
                != paths::components(all[m].path),
    ensures
        0 <= s < gen_update_map::logged_seeds(all).len(),
        gen_update_map::logged_seeds(all)[s] == all[m].path,
    decreases all.len(),
{
    let less = all.drop_last();
    let earlier = gen_update_map::logged_seeds(less);
    if m == all.len() - 1 {
        gen_update_map::only_authored_logs_seed(less, paths::components(all[m].path));
        if gen_update_map::is_authored(less, paths::components(all[m].path)) {
            let k = choose|k: int| #[trigger]
                gen_update_map::is_mention_of(less, paths::components(all[m].path), k)
                    && !less[k].carried;
            assert(less[k] == all[k]);
        }
        earlier.len() as int
    } else {
        assert forall|k: int| 0 <= k < m implies (#[trigger] less[k]).carried || paths::components(
            less[k].path,
        ) != paths::components(less[m].path) by {
            assert(less[k] == all[k]);
        }
        let s = lemma_first_written(less, m);
        assert(gen_update_map::logged_seeds(all)[s] == earlier[s]);
        s
    }
}

/// The path of every bump that an authored log asks for is a seed of the plan, as
/// the first such log writes it.
pub proof fn authored_paths_are_seeds(
    all: Seq<Mention>,
    rules: Seq<RuleView>,
    plan: UpdatePlan,
    m: int,
)
    requires
        gen_update_map::is_planned(all, rules, plan),
        0 <= m < all.len(),
        !all[m].carried,
        forall|k: int|
            0 <= k < m ==> (#[trigger] all[k]).carried || paths::components(all[k].path)
                != paths::components(all[m].path),
    ensures
        exists|s: int|
            0 <= s < plan.expansion_seeds@.len() && (#[trigger] plan.expansion_seeds@[s])@
                == all[m].path,
{
    let queue = paths::views(plan.expansion_seeds@);
    let s = lemma_first_written(all, m);
    let seeds = gen_update_map::logged_seeds(all);
    assert(queue.take(seeds.len() as int)[s] == queue[s]);
    assert(queue[s] == plan.expansion_seeds@[s]@);
}

/// A log counts as authored unless its file name starts with the prefix that is
/// reserved for logs that carry updates over.
pub proof fn carried_logs_are_told_by_their_file_names(file: LogFile, c: int)
    requires
        0 <= c < file.log.changes@.len(),
    ensures
        gen_update_map::mentions(seq![file]).len() == file.log.changes@.len(),
        gen_update_map::mentions(seq![file])[c] == (Mention {
            path: file.log.changes@[c].path@,
            log: LogView {
                update_type: file.log.changes@[c].update_type,
                note: file.log.note@,
            },
            carried: paths::components(file.path@).len() > 0
                && "changepack_log_carry_forward_"@.is_prefix_of(
                paths::components(file.path@).last(),
            ),
        }),
{
    assert(seq![file].drop_last() =~= Seq::empty());
    assert(gen_update_map::mentions(Seq::<LogFile>::empty()) =~= Seq::empty());
}

/// A rule whose trigger matches a seed of the plan, written with slashes,
/// schedules each of its dependents and makes it a seed.
pub proof fn matching_rules_schedule_their_dependents(
    all: Seq<Mention>,
    rules: Seq<RuleView>,
    plan: UpdatePlan,
    s: int,
    r: int,
    j: int,
)
    requires
        gen_update_map::is_planned(all, rules, plan),
        0 <= s < plan.expansion_seeds@.len(),
        0 <= r < rules.len(),
        update_on::glob_is_valid(rules[r].trigger),
        update_on::glob_matches(
            rules[r].trigger,
            plan.expansion_seeds@[s]@.map_values(|c: char| if c == '\\' { '/' } else { c }),
        ),
        0 <= j < rules[r].dependents.len(),
    ensures
        plan.updates@.contains_key(paths::components(rules[r].dependents[j])),
        exists|t: int|
            0 <= t < plan.expansion_seeds@.len() && paths::components(
                (#[trigger] plan.expansion_seeds@[t])@,
            ) == paths::components(rules[r].dependents[j]),
{
    let seed = plan.expansion_seeds@[s]@;
    assert(paths::with_slashes(seed) =~= seed.map_values(
        |c: char| if c == '\\' { '/' } else { c },
    ));
    gen_update_map::rules_are_closed(all, rules, plan, s, r, j);
}

/// An update that no log asks for was scheduled by a rule: it is a patch of a
/// dependent of a rule whose trigger matches a seed, its only changelog line names
/// that trigger, and it is recorded as freshly generated.
pub proof fn other_updates_come_from_a_rule(
    all: Seq<Mention>,
    rules: Seq<RuleView>,
    plan: UpdatePlan,
    at: Seq<Seq<char>>,
)
    requires
        gen_update_map::is_planned(all, rules, plan),
        plan.updates@.contains_key(at),
        forall|m: int| 0 <= m < all.len() ==> paths::components((#[trigger] all[m]).path) != at,
    ensures
        exists|s: int, r: int, j: int|
            0 <= s < plan.expansion_seeds@.len() && 0 <= r < rules.len() && 0 <= j
                < rules[r].dependents.len() && paths::components(
                #[trigger] rules[r].dependents[j],
            ) == at && update_on::glob_matches(
                rules[r].trigger,
                (#[trigger] plan.expansion_seeds@[s])@.map_values(
                    |c: char| if c == '\\' { '/' } else { c },
                ),
            ) && plan.updates@[at] == (EntryView {
                path: rules[r].dependents[j],
                update_type: UpdateType::Patch,
                logs: seq![
                    LogView {
                        update_type: UpdateType::Patch,
                        note: "Auto-update triggered by updateOn rule: "@ + rules[r].trigger,
                    },
                ],
            }) && plan.origins().contains_key(at) && plan.origins()[at] == (
            ProvenanceView::Generated {
                notes: seq!["Auto-update triggered by updateOn rule: "@ + rules[r].trigger],
                state: GeneratedState::Fresh,
            }),
{
    let logged = gen_update_map::logged_updates(all);
    let queue = paths::views(plan.expansion_seeds@);
    let seeds = gen_update_map::logged_seeds(all);
    gen_update_map::scheduled_bump_is_the_strongest(all, at);
    if logged.contains_key(at) {
        let m = choose|m: int| #[trigger] gen_update_map::is_mention_of(all, at, m);
        assert(paths::components(all[m].path) == at);
    }
    let levels = choose|levels: Seq<int>| #[trigger]
        update_on::is_rule_walk(rules, seeds.len() as int, queue, levels)
            && update_on::is_rule_expanded(rules, queue, levels, logged, plan.updates@);
    assert(update_on::is_rule_generated(rules, queue, levels, at, plan.updates@[at]));
    let (s, r, j) = choose|s: int, r: int, j: int| #[trigger]
        update_on::is_rule_hit(rules, queue, at, s, r, j) && plan.updates@[at] == (EntryView {
            path: rules[r].dependents[j],
            update_type: UpdateType::Patch,
            logs: seq![
                LogView {
                    update_type: UpdateType::Patch,
                    note: update_on::rule_note(rules[r].trigger),
                },
            ],
        }) && forall|m2: int, r2: int, j2: int| #[trigger]
            update_on::is_rule_hit(rules, queue, at, m2, r2, j2) ==> update_on::comes_first(
                levels[s],
                r,
                levels[m2],
                r2,
            );
    let seed = plan.expansion_seeds@[s]@;
    assert(queue[s] == seed);
    assert(paths::with_slashes(seed) =~= seed.map_values(
        |c: char| if c == '\\' { '/' } else { c },
    ));
    assert(paths::components(rules[r].dependents[j]) == at);
    let generated = choose|generated: Seq<GeneratedUpdate>| #[trigger]
        apply_reverse_dependencies::lists_generated(generated, logged, plan.updates@)
            && plan.origins() == update_plan::with_generated(
            gen_update_map::logged_origins(all),
            generated,
        );
    new_updates_are_recorded_as_fresh(
        gen_update_map::logged_origins(all),
        generated,
        logged,
        plan.updates@,
        at,
    );
}

/// A seed that no authored log mentions is a dependent of a rule whose trigger
/// matches another seed.
pub proof fn other_seeds_come_from_a_rule(
    all: Seq<Mention>,
    rules: Seq<RuleView>,
    plan: UpdatePlan,
    k: int,
)
    requires
        gen_update_map::is_planned(all, rules, plan),
        0 <= k < plan.expansion_seeds@.len(),
        forall|m: int|
            0 <= m < all.len() ==> (#[trigger] all[m]).carried || paths::components(all[m].path)
                != paths::components(plan.expansion_seeds@[k]@),
    ensures
        exists|s: int, r: int, j: int|
            0 <= s < k && 0 <= r < rules.len() && 0 <= j < rules[r].dependents.len()
                && #[trigger] rules[r].dependents[j] == plan.expansion_seeds@[k]@
                && update_on::glob_matches(
                rules[r].trigger,
                (#[trigger] plan.expansion_seeds@[s])@.map_values(
                    |c: char| if c == '\\' { '/' } else { c },
                ),
            ),
{
    let queue = paths::views(plan.expansion_seeds@);
    let seeds = gen_update_map::logged_seeds(all);
    let at = paths::components(plan.expansion_seeds@[k]@);
    assert(queue[k] == plan.expansion_seeds@[k]@);
    gen_update_map::only_authored_logs_seed(all, at);
    if k < seeds.len() {
        assert(queue.take(seeds.len() as int)[k] == queue[k]);
        assert(paths::components(seeds[k]) == at);
        assert(update_plan::places(seeds).contains(at));
        let m = choose|m: int| #[trigger]
            gen_update_map::is_mention_of(all, at, m) && !all[m].carried;
        assert(paths::components(all[m].path) == at);
    }
    let levels = choose|levels: Seq<int>| #[trigger]
        update_on::is_rule_walk(rules, seeds.len() as int, queue, levels)
            && update_on::is_rule_expanded(
            rules,
            queue,
            levels,
            gen_update_map::logged_updates(all),
            plan.updates@,
        );
    assert(update_on::is_rule_queued(rules, queue, levels, k));
    let (s, r, j) = choose|s: int, r: int, j: int| #[trigger]
        update_on::is_rule_hit(rules, queue, paths::components(queue[k]), s, r, j) && s < k
            && levels[s] + 1 == levels[k] && rules[r].dependents[j] == queue[k];
    let seed = plan.expansion_seeds@[s]@;
    assert(queue[s] == seed);
    assert(paths::with_slashes(seed) =~= seed.map_values(
        |c: char| if c == '\\' { '/' } else { c },
    ));
}

/// A path is scheduled for a major bump where a log asks for one, else for a minor
/// one where a log asks for that, else for a patch.
pub proof fn strongest_bump_by_kind(all: Seq<Mention>, at: Seq<Seq<char>>, m: int)
    requires
        0 <= m < all.len(),
        paths::components(all[m].path) == at,
    ensures
        ({
            let asked = |update_type: UpdateType|
                exists|k: int|
                    0 <= k < all.len() && paths::components((#[trigger] all[k]).path) == at
                        && all[k].log.update_type == update_type;
            gen_update_map::logged_updates(all)[at].update_type == if asked(UpdateType::Major) {
                UpdateType::Major
            } else if asked(UpdateType::Minor) {
                UpdateType::Minor
            } else {
                UpdateType::Patch
            }
        }),
{
    gen_update_map::scheduled_bump_is_the_strongest(all, at);
    assert(gen_update_map::is_mention_of(all, at, m));
    let i = choose|i: int| #[trigger]
        gen_update_map::is_mention_of(all, at, i) && all[i].log.update_type
            == gen_update_map::logged_updates(all)[at].update_type;
    assert(paths::components(all[i].path) == at);
    assert forall|k: int|
        0 <= k < all.len() && paths::components((#[trigger] all[k]).path) == at implies gen_update_map::logged_updates(
        all,
    )[at].update_type.rank() <= all[k].log.update_type.rank() by {
        assert(gen_update_map::is_mention_of(all, at, k));
    }
}

/// Folding one path into another: an explicit origin wins, the notes of two
/// generated origins add up, those of the target first, and what comes of it has
/// been written before where either had. Without an origin of its own the target
/// takes the one of the source.
pub proof fn merged_origins_add_up(
    origins: Map<Seq<Seq<char>>, ProvenanceView>,
    source: Seq<Seq<char>>,
    target: Seq<Seq<char>>,
)
    requires
        source != target,
        origins.contains_key(source),
    ensures
        ({
            let merged = update_plan::merged_provenance(origins, source, target);
            &&& merged.contains_key(target)
            &&& !origins.contains_key(target) ==> merged[target] == origins[source]
            &&& origins.contains_key(target) && (origins[source] is Explicit || origins[target]
                is Explicit) ==> merged[target] is Explicit
            &&& origins.contains_key(target) && origins[source] is Generated && origins[target]
                is Generated ==> {
                &&& merged[target] is Generated
                &&& merged[target]->notes == origins[target]->notes + origins[source]->notes
                &&& merged[target]->state == GeneratedState::Persisted <==> origins[target]->state
                    == GeneratedState::Persisted || origins[source]->state
                    == GeneratedState::Persisted
            }
        }),
{
}

/// A path that is neither folded away nor folded into keeps its origin and stays
/// a seed or not.
pub proof fn merges_leave_other_paths_alone(
    origins: Map<Seq<Seq<char>>, ProvenanceView>,
    seeds: Set<Seq<Seq<char>>>,
    pairs: Seq<MergedPair>,
    n: nat,
    at: Seq<Seq<char>>,
)
    requires
        n <= pairs.len(),
        forall|k: int|
            0 <= k < n ==> paths::components((#[trigger] pairs[k]).source@) != at
                && paths::components(pairs[k].target@) != at,
    ensures
        update_plan::provenance_after(origins, pairs, n).contains_key(at) == origins.contains_key(
            at,
        ),
        origins.contains_key(at) ==> update_plan::provenance_after(origins, pairs, n)[at]
            == origins[at],
        update_plan::seeds_after(seeds, pairs, n).contains(at) == seeds.contains(at),
    decreases n,
{
    if n > 0 {
        merges_leave_other_paths_alone(origins, seeds, pairs, (n - 1) as nat, at);
        assert(paths::components(pairs[n - 1].source@) != at);
    }
}

/// One fold after the other: the last pair is folded into what the pairs before
/// it come to.
pub proof fn merges_go_one_by_one(
    origins: Map<Seq<Seq<char>>, ProvenanceView>,
    seeds: Set<Seq<Seq<char>>>,
    pairs: Seq<MergedPair>,
    n: nat,
)
    requires
        0 < n <= pairs.len(),
        paths::components(pairs[n - 1].source@) != paths::components(pairs[n - 1].target@),
    ensures
        ({
            let earlier = update_plan::seeds_after(seeds, pairs, (n - 1) as nat);
            let source = paths::components(pairs[n - 1].source@);
            let target = paths::components(pairs[n - 1].target@);
            let later = update_plan::seeds_after(seeds, pairs, n);
            &&& !later.contains(source)
            &&& later.contains(target) <==> earlier.contains(target) || earlier.contains(source)
            &&& !update_plan::provenance_after(origins, pairs, n).contains_key(source)
            &&& update_plan::provenance_after(origins, pairs, n).contains_key(target)
                <==> update_plan::provenance_after(origins, pairs, (n - 1) as nat).contains_key(
                target,
            ) || update_plan::provenance_after(origins, pairs, (n - 1) as nat).contains_key(source)
        }),
{
}

/// The logs that are carried forward: for each dropped path, in order, one for
/// each note of an update that was freshly generated, with the path and its bump,
/// and none for any other.
pub proof fn carried_logs_list_every_fresh_note(
    excluded: Seq<Seq<char>>,
    updates: Map<Seq<Seq<char>>, EntryView>,
    origins: Map<Seq<Seq<char>>, ProvenanceView>,
)
    ensures
        update_plan::carried_forward(excluded, updates, origins) == excluded.map_values(
            |path: Seq<char>|
                if origins.contains_key(paths::components(path))
                    && origins[paths::components(path)] is Generated
                    && origins[paths::components(path)]->state == GeneratedState::Fresh {
                    origins[paths::components(path)]->notes.map_values(
                        |note: Seq<char>|
                            ChangePackLogView {
                                changes: seq![
                                    (path, updates[paths::components(path)].update_type),
                                ],
                                note,
                            },
                    )
                } else {
                    Seq::<ChangePackLogView>::empty()
                },
        ).flatten(),
    decreases excluded.len(),
{
    let each = |path: Seq<char>|
        if origins.contains_key(paths::components(path)) && origins[paths::components(path)]
            is Generated && origins[paths::components(path)]->state == GeneratedState::Fresh {
            origins[paths::components(path)]->notes.map_values(
                |note: Seq<char>|
                    ChangePackLogView {
                        changes: seq![(path, updates[paths::components(path)].update_type)],
                        note,
                    },
            )
        } else {
            Seq::<ChangePackLogView>::empty()
        };
    if excluded.len() == 0 {
        assert(excluded.map_values(each) =~= Seq::empty());
    } else {
        let less = excluded.drop_last();
        let last = excluded.last();
        let at = paths::components(last);
        carried_logs_list_every_fresh_note(less, updates, origins);
        assert(excluded.map_values(each) =~= less.map_values(each).push(each(last)));
        less.map_values(each).lemma_flatten_push(each(last));
        assert(update_plan::carried_logs(
            last,
            updates[at].update_type,
            update_plan::origin_of(origins, at),
        ) =~= each(last));
    }
}

} // verus!
