//! The update plan of a run, from its changepack logs and `updateOn` rules.

use crate::apply_reverse_dependencies;
use crate::apply_reverse_dependencies::GeneratedUpdate;
use crate::config;
use crate::config::Config;
use crate::path_map::PathMap;
use crate::paths;
use crate::text::starts_with_text;
use crate::update_map;
use crate::update_map::{EntryView, LogView, UpdateMap};
use crate::update_on;
use crate::update_on::{apply_update_on_rules_from, InvalidTrigger};
use crate::update_plan;
use crate::update_plan::{
    Change, ChangePackLog, GeneratedState, ProvenanceView, UpdatePlan, UpdateProvenance,
};
use vstd::prelude::*;
use vstd::string::*;

verus! {

/// Reserved prefix for generated carry-forward changepack logs.
pub const CARRY_FORWARD_LOG_PREFIX: &'static str = "changepack_log_carry_forward_";

/// A changepack log and the path of the file that held it.
#[derive(Debug)]
pub struct LogFile {
    pub path: String,
    pub log: ChangePackLog,
}

/// A log that carries generated updates over from an earlier run, by its file
/// name.
pub open spec fn is_carry_forward(path: Seq<char>) -> bool {
    let parts = paths::components(path);
    parts.len() > 0 && CARRY_FORWARD_LOG_PREFIX@.is_prefix_of(parts.last())
}

/// One bump that one log asks for.
pub struct Mention {
    pub path: Seq<char>,
    pub log: LogView,
    pub carried: bool,
}

/// The bump `changes[c]` of a log.
pub open spec fn mention(file: LogFile, c: int) -> Mention {
    let change = file.log.changes@[c];
    Mention {
        path: change.path@,
        log: LogView { update_type: change.update_type, note: file.log.note@ },
        carried: is_carry_forward(file.path@),
    }
}

/// The bumps that one log asks for.
pub open spec fn file_mentions(file: LogFile) -> Seq<Mention> {
    Seq::new(file.log.changes@.len(), |c: int| mention(file, c))
}

/// The bumps that the logs ask for, log by log.
pub open spec fn mentions(files: Seq<LogFile>) -> Seq<Mention>
    decreases files.len(),
{
    if files.len() == 0 {
        Seq::empty()
    } else {
        mentions(files.drop_last()) + file_mentions(files.last())
    }
}

/// The updates that the bumps schedule: one for each path, with a changelog
/// line for each bump.
pub open spec fn logged_updates(all: Seq<Mention>) -> Map<Seq<Seq<char>>, EntryView>
    decreases all.len(),
{
    if all.len() == 0 {
        Map::empty()
    } else {
        update_map::with_change(
            logged_updates(all.drop_last()),
            all.last().path,
            all.last().log,
        )
    }
}

/// What one more bump makes of the provenance of its path: an authored log
/// makes it explicit, and a carried one adds its note unless it is explicit.
pub open spec fn with_mention(
    origins: Map<Seq<Seq<char>>, ProvenanceView>,
    m: Mention,
) -> Map<Seq<Seq<char>>, ProvenanceView> {
    let at = paths::components(m.path);
    if !m.carried {
        origins.insert(at, ProvenanceView::Explicit)
    } else {
        match update_plan::origin_of(origins, at) {
            Some(ProvenanceView::Explicit) => origins,
            Some(ProvenanceView::Generated { notes, .. }) => origins.insert(
                at,
                ProvenanceView::Generated {
                    notes: notes.push(m.log.note),
                    state: GeneratedState::Persisted,
                },
            ),
            None => origins.insert(
                at,
                ProvenanceView::Generated {
                    notes: seq![m.log.note],
                    state: GeneratedState::Persisted,
                },
            ),
        }
    }
}

/// Where the updates that the bumps schedule came from.
pub open spec fn logged_origins(all: Seq<Mention>) -> Map<Seq<Seq<char>>, ProvenanceView>
    decreases all.len(),
{
    if all.len() == 0 {
        Map::empty()
    } else {
        with_mention(logged_origins(all.drop_last()), all.last())
    }
}

/// The paths of the authored bumps, each path once and as first written.
pub open spec fn logged_seeds(all: Seq<Mention>) -> Seq<Seq<char>>
    decreases all.len(),
{
    if all.len() == 0 {
        Seq::empty()
    } else {
        let earlier = logged_seeds(all.drop_last());
        if all.last().carried || update_plan::places(earlier).contains(
            paths::components(all.last().path),
        ) {
            earlier
        } else {
            earlier.push(all.last().path)
        }
    }
}

/// Whether the log in the file `path` carries generated updates over.
fn carries_forward(path: &str) -> (carried: bool)
    ensures
        carried == is_carry_forward(path@),
{
    let parts: Vec<String> = paths::components_of(path);
    proof {
        assert(paths::views(parts@).len() == parts@.len());
    }
    if parts.len() == 0 {
        return false;
    }
    proof {
        assert(paths::views(parts@).last() == parts@.last()@);
    }
    starts_with_text(parts[parts.len() - 1].as_str(), CARRY_FORWARD_LOG_PREFIX)
}

/// What the plan holds once the bumps `all` are taken in.
pub open spec fn holds_mentions(plan: UpdatePlan, all: Seq<Mention>) -> bool {
    &&& plan.well_formed()
    &&& plan.updates@ == logged_updates(all)
    &&& plan.origins() == logged_origins(all)
    &&& paths::views(plan.expansion_seeds@) == logged_seeds(all)
}

/// The places of a list of texts are those of their views.
proof fn lemma_places_of_views(list: Seq<String>)
    ensures
        update_plan::places(paths::views(list)) == paths::place_set(list),
{
    let views = paths::views(list);
    assert forall|at: Seq<Seq<char>>| update_plan::places(views).contains(at) == paths::place_set(
        list,
    ).contains(at) by {
        if update_plan::places(views).contains(at) {
            let i = choose|i: int|
                0 <= i < views.len() && paths::components(#[trigger] views[i]) == at;
            assert(paths::components(list[i]@) == at);
        }
        if paths::place_set(list).contains(at) {
            let i = choose|i: int|
                0 <= i < list.len() && paths::components((#[trigger] list[i])@) == at;
            assert(paths::components(views[i]) == at);
        }
    }
    assert(update_plan::places(views) =~= paths::place_set(list));
}

/// Takes one bump into the plan.
fn take_change(plan: &mut UpdatePlan, change: &Change, note: &str, carried: bool, Ghost(all): Ghost<
    Seq<Mention>,
>)
    requires
        holds_mentions(*old(plan), all),
    ensures
        holds_mentions(
            *final(plan),
            all.push(
                Mention {
                    path: change.path@,
                    log: LogView { update_type: change.update_type, note: note@ },
                    carried,
                },
            ),
        ),
{
    let ghost m = Mention {
        path: change.path@,
        log: LogView { update_type: change.update_type, note: note@ },
        carried,
    };
    let ghost at = paths::components(change.path@);
    let ghost before = plan.provenance@;
    proof {
        assert(all.push(m).drop_last() =~= all);
        lemma_places_of_views(plan.expansion_seeds@);
    }
    let path: &str = change.path.as_str();
    if carried {
        match plan.provenance.remove(path) {
            Some(UpdateProvenance::Explicit) => {
                plan.provenance.insert(path.to_string(), UpdateProvenance::Explicit);
            },
            Some(UpdateProvenance::Generated { notes, state: _ }) => {
                let mut notes: Vec<String> = notes;
                let ghost earlier = notes@;
                notes.push(note.to_string());
                proof {
                    assert(paths::views(notes@) =~= paths::views(earlier).push(note@));
                }
                plan.provenance.insert(
                    path.to_string(),
                    UpdateProvenance::Generated { notes, state: GeneratedState::Persisted },
                );
            },
            None => {
                let mut notes: Vec<String> = Vec::new();
                notes.push(note.to_string());
                proof {
                    assert(paths::views(notes@) =~= seq![note@]);
                }
                plan.provenance.insert(
                    path.to_string(),
                    UpdateProvenance::Generated { notes, state: GeneratedState::Persisted },
                );
            },
        }
    } else {
        plan.provenance.insert(path.to_string(), UpdateProvenance::Explicit);
        if !paths::holds_path(&plan.expansion_seeds, path) {
            let ghost seeds = plan.expansion_seeds@;
            plan.expansion_seeds.push(path.to_string());
            proof {
                assert(paths::views(plan.expansion_seeds@) =~= paths::views(seeds).push(path@));
                assert forall|i: int, j: int|
                    0 <= i < j < plan.expansion_seeds@.len() implies paths::components(
                    (#[trigger] plan.expansion_seeds@[i])@,
                ) != paths::components((#[trigger] plan.expansion_seeds@[j])@) by {
                    assert(plan.expansion_seeds@[i] == seeds[i]);
                    if j < seeds.len() {
                        assert(plan.expansion_seeds@[j] == seeds[j]);
                    } else {
                        assert(!paths::place_set(seeds).contains(paths::components(seeds[i]@)) || (
                        paths::components(seeds[i]@) != at));
                    }
                }
            }
        }
    }
    proof {
        assert(update_plan::provenance_view(before).contains_key(at) == before.contains_key(at));
        assert(plan.origins() =~= with_mention(update_plan::provenance_view(before), m));
    }
    plan.updates.log_change(path, change.update_type, note);
}

/// The plan that the logs alone make.
fn logged_plan(files: &Vec<LogFile>) -> (plan: UpdatePlan)
    ensures
        holds_mentions(plan, mentions(files@)),
{
    let mut plan = UpdatePlan {
        updates: UpdateMap::new(),
        provenance: PathMap::new(),
        expansion_seeds: Vec::new(),
    };
    proof {
        assert(plan.origins() =~= Map::empty());
        assert(paths::views(plan.expansion_seeds@) =~= Seq::empty());
    }
    let mut f: usize = 0;
    while f < files.len()
        invariant
            f <= files@.len(),
            holds_mentions(plan, mentions(files@.take(f as int))),
        decreases files@.len() - f,
    {
        let file: &LogFile = &files[f];
        let carried: bool = carries_forward(file.path.as_str());
        let ghost earlier = mentions(files@.take(f as int));
        let ghost own = file_mentions(*file);
        proof {
            assert(own.take(0) =~= Seq::empty());
            assert(earlier + own.take(0) =~= earlier);
        }
        let mut c: usize = 0;
        while c < file.log.changes.len()
            invariant
                c <= file.log.changes@.len(),
                own == file_mentions(*file),
                carried == is_carry_forward(file.path@),
                holds_mentions(plan, earlier + own.take(c as int)),
            decreases file.log.changes@.len() - c,
        {
            take_change(
                &mut plan,
                &file.log.changes[c],
                file.log.note.as_str(),
                carried,
                Ghost(earlier + own.take(c as int)),
            );
            proof {
                assert(earlier + own.take(c as int + 1) =~= (earlier + own.take(c as int)).push(
                    own[c as int],
                ));
            }
            c = c + 1;
        }
        proof {
            assert(own.take(c as int) =~= own);
            assert(files@.take(f as int + 1).drop_last() =~= files@.take(f as int));
        }
        f = f + 1;
    }
    proof {
        assert(files@.take(f as int) =~= files@);
    }
    plan
}

/// The plan that the rules make of the logged updates.
pub open spec fn is_planned(
    logged: Seq<Mention>,
    rules: Seq<config::RuleView>,
    plan: UpdatePlan,
) -> bool {
    let queue = paths::views(plan.expansion_seeds@);
    let seeds = logged_seeds(logged);
    &&& seeds.len() <= queue.len()
    &&& queue.take(seeds.len() as int) == seeds
    &&& if rules.len() > 0 && seeds.len() > 0 {
        exists|levels: Seq<int>| #[trigger]
            update_on::is_rule_walk(rules, seeds.len() as int, queue, levels)
                && update_on::is_rule_expanded(
                rules,
                queue,
                levels,
                logged_updates(logged),
                plan.updates@,
            )
    } else {
        queue == seeds && plan.updates@ == logged_updates(logged)
    }
    &&& exists|generated: Seq<GeneratedUpdate>| #[trigger]
        apply_reverse_dependencies::lists_generated(
            generated,
            logged_updates(logged),
            plan.updates@,
        ) && plan.origins() == update_plan::with_generated(logged_origins(logged), generated)
}

/// Where a path seeds an expansion, an update is scheduled for it.
proof fn lemma_seeds_are_scheduled(all: Seq<Mention>)
    ensures
        forall|k: int|
            0 <= k < logged_seeds(all).len() ==> #[trigger] logged_updates(all).contains_key(
                paths::components(logged_seeds(all)[k]),
            ),
    decreases all.len(),
{
    if all.len() > 0 {
        lemma_seeds_are_scheduled(all.drop_last());
        assert forall|k: int| 0 <= k < logged_seeds(all).len() implies #[trigger] logged_updates(
            all,
        ).contains_key(paths::components(logged_seeds(all)[k])) by {
            let earlier = logged_seeds(all.drop_last());
            if k < earlier.len() {
                assert(logged_seeds(all)[k] == earlier[k]);
                assert(logged_updates(all.drop_last()).contains_key(
                    paths::components(earlier[k]),
                ));
            }
        }
    }
}

/// The plan that the logs and the rules of the configuration make: the logged
/// updates, then a patch for each dependent of a rule that fires.
pub fn gen_update_map(files: &Vec<LogFile>, config: &Config) -> (result: Result<
    UpdatePlan,
    InvalidTrigger,
>)
    ensures
        match result {
            Ok(plan) => {
                let rules = config::rule_views(config.update_on@);
                &&& plan.well_formed()
                &&& update_on::all_valid(rules)
                &&& is_planned(mentions(files@), rules, plan)
            },
            Err(invalid) => exists|r: int| #[trigger]
                update_on::is_first_invalid(config::rule_views(config.update_on@), r)
                    && config::rule_views(config.update_on@)[r].trigger == invalid.pattern@,
        },
{
    let mut plan: UpdatePlan = logged_plan(files);
    let ghost logged = mentions(files@);
    let ghost seeds = plan.expansion_seeds@;
    let ghost rules = config::rule_views(config.update_on@);
    proof {
        lemma_seeds_are_scheduled(logged);
        if seeds.len() > 0 {
            assert(logged_updates(logged).contains_key(
                paths::components(logged_seeds(logged)[0]),
            ));
        }
    }
    match apply_update_on_rules_from(
        &mut plan.updates,
        &config.update_on,
        &mut plan.expansion_seeds,
    ) {
        Ok(generated) => {
            plan.record_generated(&generated);
            proof {
                assert(rules.len() == config.update_on@.len());
                assert(apply_reverse_dependencies::lists_generated(
                    generated@,
                    logged_updates(logged),
                    plan.updates@,
                ));
            }
            Ok(plan)
        },
        Err(invalid) => Err(invalid),
    }
}

/// The bump `all[i]` is of the path at `at`.
pub open spec fn is_mention_of(all: Seq<Mention>, at: Seq<Seq<char>>, i: int) -> bool {
    0 <= i < all.len() && paths::components(all[i].path) == at
}

/// An authored log asks for a bump of the path at `at`.
pub open spec fn is_authored(all: Seq<Mention>, at: Seq<Seq<char>>) -> bool {
    exists|i: int| #[trigger] is_mention_of(all, at, i) && !all[i].carried
}

/// The notes of the bumps of the path at `at`, in order.
pub open spec fn notes_at(all: Seq<Mention>, at: Seq<Seq<char>>) -> Seq<Seq<char>>
    decreases all.len(),
{
    if all.len() == 0 {
        Seq::empty()
    } else if paths::components(all.last().path) == at {
        notes_at(all.drop_last(), at).push(all.last().log.note)
    } else {
        notes_at(all.drop_last(), at)
    }
}

/// A path is scheduled exactly where a log mentions it, and then for the
/// strongest bump that any log asks for.
pub proof fn scheduled_bump_is_the_strongest(all: Seq<Mention>, at: Seq<Seq<char>>)
    ensures
        logged_updates(all).contains_key(at) <==> exists|i: int| #[trigger]
            is_mention_of(all, at, i),
        forall|i: int| #[trigger]
            is_mention_of(all, at, i) ==> logged_updates(all)[at].update_type.rank()
                <= all[i].log.update_type.rank(),
        logged_updates(all).contains_key(at) ==> exists|i: int| #[trigger]
            is_mention_of(all, at, i) && all[i].log.update_type == logged_updates(
                all,
            )[at].update_type,
    decreases all.len(),
{
    if all.len() > 0 {
        let less = all.drop_last();
        let last = all.len() - 1;
        scheduled_bump_is_the_strongest(less, at);
        assert forall|i: int| #[trigger] is_mention_of(less, at, i) implies is_mention_of(all, at, i)
            && all[i] == less[i] by {}
        assert forall|i: int| #[trigger] is_mention_of(all, at, i) implies (i == last
            || is_mention_of(less, at, i)) && logged_updates(all)[at].update_type.rank()
            <= all[i].log.update_type.rank() by {
            if i != last {
                assert(is_mention_of(less, at, i));
                assert(less[i] == all[i]);
            }
        }
        if paths::components(all.last().path) == at {
            assert(is_mention_of(all, at, last));
            if less.len() > 0 && logged_updates(less).contains_key(at) {
                let i = choose|i: int| #[trigger]
                    is_mention_of(less, at, i) && less[i].log.update_type == logged_updates(
                        less,
                    )[at].update_type;
                assert(is_mention_of(all, at, i));
            }
        } else if logged_updates(all).contains_key(at) {
            let i = choose|i: int| #[trigger]
                is_mention_of(less, at, i) && less[i].log.update_type == logged_updates(
                    less,
                )[at].update_type;
            assert(is_mention_of(all, at, i));
        }
    }
}

/// A bump that an authored log asks for is explicit, whatever is carried over
/// for the same path; one that is only carried over is a persisted generated
/// update with the notes of its logs.
pub proof fn authored_log_dominates(all: Seq<Mention>, at: Seq<Seq<char>>)
    ensures
        is_authored(all, at) ==> update_plan::origin_of(logged_origins(all), at) == Some(
            ProvenanceView::Explicit,
        ),
        !is_authored(all, at) ==> update_plan::origin_of(logged_origins(all), at) == (
        if notes_at(all, at).len() > 0 {
            Some(
                ProvenanceView::Generated {
                    notes: notes_at(all, at),
                    state: GeneratedState::Persisted,
                },
            )
        } else {
            None
        }),
    decreases all.len(),
{
    if all.len() > 0 {
        let less = all.drop_last();
        let last = all.len() - 1;
        authored_log_dominates(less, at);
        if is_authored(less, at) {
            let i = choose|i: int| #[trigger] is_mention_of(less, at, i) && !less[i].carried;
            assert(is_mention_of(all, at, i) && !all[i].carried);
        }
        if is_authored(all, at) && !is_authored(less, at) {
            let i = choose|i: int| #[trigger] is_mention_of(all, at, i) && !all[i].carried;
            if i != last {
                assert(is_mention_of(less, at, i) && !less[i].carried);
            }
        }
        if paths::components(all.last().path) == at {
            assert(is_mention_of(all, at, last));
            if !is_authored(all, at) && notes_at(less, at).len() == 0 {
                assert(notes_at(all, at) =~= seq![all.last().log.note]);
            }
        }
    }
}

/// Exactly the paths of authored bumps seed an expansion: what is only carried
/// over seeds nothing.
pub proof fn only_authored_logs_seed(all: Seq<Mention>, at: Seq<Seq<char>>)
    ensures
        update_plan::places(logged_seeds(all)).contains(at) <==> is_authored(all, at),
    decreases all.len(),
{
    if all.len() > 0 {
        let less = all.drop_last();
        let last = all.len() - 1;
        only_authored_logs_seed(less, at);
        let earlier = logged_seeds(less);
        let seeds = logged_seeds(all);
        if is_authored(less, at) {
            let i = choose|i: int| #[trigger] is_mention_of(less, at, i) && !less[i].carried;
            assert(is_mention_of(all, at, i) && !all[i].carried);
            let k = choose|k: int|
                0 <= k < earlier.len() && paths::components(#[trigger] earlier[k]) == at;
            assert(seeds[k] == earlier[k]);
        }
        if is_authored(all, at) && !is_authored(less, at) {
            let i = choose|i: int| #[trigger] is_mention_of(all, at, i) && !all[i].carried;
            if i != last {
                assert(is_mention_of(less, at, i) && !less[i].carried);
            }
            assert(seeds.last() == all.last().path);
        }
        if update_plan::places(seeds).contains(at) && !is_authored(less, at) {
            let k = choose|k: int|
                0 <= k < seeds.len() && paths::components(#[trigger] seeds[k]) == at;
            if k < earlier.len() {
                assert(earlier[k] == seeds[k]);
            }
            assert(is_mention_of(all, at, last));
        }
    } else {
        assert(!is_authored(all, at));
    }
}

/// The order in which the logs are read changes neither which paths are
/// scheduled, nor for which bump, nor which of them are explicit, nor which
/// seed an expansion.
pub proof fn log_order_does_not_matter(left: Seq<Mention>, right: Seq<Mention>, at: Seq<Seq<char>>)
    requires
        left.to_multiset() == right.to_multiset(),
    ensures
        logged_updates(left).contains_key(at) <==> logged_updates(right).contains_key(at),
        logged_updates(left).contains_key(at) ==> logged_updates(left)[at].update_type
            == logged_updates(right)[at].update_type,
        update_plan::origin_of(logged_origins(left), at) == Some(ProvenanceView::Explicit)
            <==> update_plan::origin_of(logged_origins(right), at) == Some(
            ProvenanceView::Explicit,
        ),
        update_plan::places(logged_seeds(left)).contains(at) <==> update_plan::places(
            logged_seeds(right),
        ).contains(at),
{
    lemma_same_mentions(left, right, at);
    lemma_same_mentions(right, left, at);
    scheduled_bump_is_the_strongest(left, at);
    scheduled_bump_is_the_strongest(right, at);
    authored_log_dominates(left, at);
    authored_log_dominates(right, at);
    only_authored_logs_seed(left, at);
    only_authored_logs_seed(right, at);
    if logged_updates(left).contains_key(at) {
        let i = choose|i: int| #[trigger]
            is_mention_of(left, at, i) && left[i].log.update_type == logged_updates(
                left,
            )[at].update_type;
        let j = choose|j: int| #[trigger]
            is_mention_of(right, at, j) && right[j].log.update_type == logged_updates(
                right,
            )[at].update_type;
        assert(logged_updates(right)[at].update_type.rank() <= logged_updates(
            left,
        )[at].update_type.rank());
        assert(logged_updates(left)[at].update_type.rank() <= logged_updates(
            right,
        )[at].update_type.rank());
    }
}

/// Each bump of one list stands in the other.
proof fn lemma_same_mentions(left: Seq<Mention>, right: Seq<Mention>, at: Seq<Seq<char>>)
    requires
        left.to_multiset() == right.to_multiset(),
    ensures
        forall|i: int| #[trigger]
            is_mention_of(left, at, i) ==> exists|j: int| #[trigger]
                is_mention_of(right, at, j) && right[j] == left[i],
{
    broadcast use vstd::seq_lib::group_to_multiset_ensures;

    assert forall|i: int| #[trigger] is_mention_of(left, at, i) implies exists|j: int| #[trigger]
        is_mention_of(right, at, j) && right[j] == left[i] by {
        assert(left.to_multiset().contains(left[i]));
        assert(right.contains(left[i]));
        let j = choose|j: int| 0 <= j < right.len() && right[j] == left[i];
        assert(is_mention_of(right, at, j));
    }
}

/// Every dependent of a rule that fires on a seed of the plan is scheduled and
/// is itself a seed.
pub proof fn rules_are_closed(
    logged: Seq<Mention>,
    rules: Seq<config::RuleView>,
    plan: UpdatePlan,
    m: int,
    r: int,
    j: int,
)
    requires
        is_planned(logged, rules, plan),
        0 <= m < plan.expansion_seeds@.len(),
        update_on::fires(rules, r, plan.expansion_seeds@[m]@),
        0 <= j < rules[r].dependents.len(),
    ensures
        plan.updates@.contains_key(paths::components(rules[r].dependents[j])),
        plan.seeds().contains(paths::components(rules[r].dependents[j])),
{
    let queue = paths::views(plan.expansion_seeds@);
    let seeds = logged_seeds(logged);
    let at = paths::components(rules[r].dependents[j]);
    assert(queue[m] == plan.expansion_seeds@[m]@);
    if seeds.len() == 0 {
        assert(queue.len() == 0);
    }
    let levels = choose|levels: Seq<int>| #[trigger]
        update_on::is_rule_walk(rules, seeds.len() as int, queue, levels)
            && update_on::is_rule_expanded(
            rules,
            queue,
            levels,
            logged_updates(logged),
            plan.updates@,
        );
    assert(update_on::is_rule_hit(rules, queue, at, m, r, j));
    assert(update_on::is_rule_reached(rules, queue, at));
    assert(update_on::is_queued_by(queue, levels, at, levels[m] + 1));
    let k = choose|k: int|
        0 <= k < queue.len() && paths::components(#[trigger] queue[k]) == at && levels[k]
            <= levels[m] + 1;
    assert(paths::components(plan.expansion_seeds@[k]@) == at);
}

/// What the logs schedule stays as logged when the rules are applied.
pub proof fn rules_keep_logged_updates(
    logged: Seq<Mention>,
    rules: Seq<config::RuleView>,
    plan: UpdatePlan,
    at: Seq<Seq<char>>,
)
    requires
        is_planned(logged, rules, plan),
        logged_updates(logged).contains_key(at),
    ensures
        plan.updates@.contains_key(at),
        plan.updates@[at] == logged_updates(logged)[at],
        update_plan::origin_of(plan.origins(), at) == update_plan::origin_of(
            logged_origins(logged),
            at,
        ),
{
    let generated = choose|generated: Seq<GeneratedUpdate>| #[trigger]
        apply_reverse_dependencies::lists_generated(
            generated,
            logged_updates(logged),
            plan.updates@,
        ) && plan.origins() == update_plan::with_generated(logged_origins(logged), generated);
    update_plan::lemma_with_generated_elsewhere(logged_origins(logged), generated, at);
}


/// The changelog of a scheduled update is made of the bumps of its path, all of
/// them, in the order in which they are read, each with its note; the update
/// keeps the path as it was first written.
pub proof fn changelog_lists_every_bump(all: Seq<Mention>, at: Seq<Seq<char>>)
    ensures
        logged_updates(all).contains_key(at) <==> all.filter(
            |m: Mention| paths::components(m.path) == at,
        ).len() > 0,
        logged_updates(all).contains_key(at) ==> {
            let own = all.filter(|m: Mention| paths::components(m.path) == at);
            &&& logged_updates(all)[at].logs == own.map_values(|m: Mention| m.log)
            &&& logged_updates(all)[at].path == own[0].path
        },
    decreases all.len(),
{
    let is_own = |m: Mention| paths::components(m.path) == at;
    let own = all.filter(is_own);
    reveal(Seq::filter);
    if all.len() > 0 {
        let less = all.drop_last();
        let earlier = less.filter(is_own);
        changelog_lists_every_bump(less, at);
        if is_own(all.last()) {
            assert(own == earlier.push(all.last()));
            assert(own.map_values(|m: Mention| m.log) =~= earlier.map_values(
                |m: Mention| m.log,
            ).push(all.last().log));
            if earlier.len() == 0 {
                assert(own.map_values(|m: Mention| m.log) =~= seq![all.last().log]);
            }
        } else {
            assert(own == earlier);
        }
    }
}

/// Every change of the logs, with its place and changelog line.
spec fn logged_changes(files: Seq<LogFile>) -> Seq<(Seq<Seq<char>>, LogView)> {
    files.map_values(
        |file: LogFile|
            file.log.changes@.map_values(
                |change: Change|
                    (
                        paths::components(change.path@),
                        LogView { update_type: change.update_type, note: file.log.note@ },
                    ),
            ),
    ).flatten()
}

proof fn lemma_mentions_flat(files: Seq<LogFile>)
    ensures
        mentions(files).map_values(|m: Mention| (paths::components(m.path), m.log))
            == logged_changes(files),
    decreases files.len(),
{
    let line = |m: Mention| (paths::components(m.path), m.log);
    let each = |file: LogFile|
        file.log.changes@.map_values(
            |change: Change|
                (
                    paths::components(change.path@),
                    LogView { update_type: change.update_type, note: file.log.note@ },
                ),
        );
    let lists = files.map_values(each);
    if files.len() == 0 {
        assert(lists =~= Seq::empty());
        assert(mentions(files).map_values(line) =~= lists.flatten());
    } else {
        let less = files.drop_last();
        lemma_mentions_flat(less);
        assert(lists =~= less.map_values(each).push(each(files.last())));
        assert(file_mentions(files.last()).map_values(line) =~= each(files.last()));
        less.map_values(each).lemma_flatten_push(each(files.last()));
        assert(mentions(files).map_values(line) =~= mentions(less).map_values(line)
            + file_mentions(files.last()).map_values(line));
    }
}

proof fn lemma_own_lines(all: Seq<Mention>, at: Seq<Seq<char>>)
    ensures
        all.filter(|m: Mention| paths::components(m.path) == at).map_values(|m: Mention| m.log)
            == all.map_values(|m: Mention| (paths::components(m.path), m.log)).filter(
            |entry: (Seq<Seq<char>>, LogView)| entry.0 == at,
        ).map_values(|entry: (Seq<Seq<char>>, LogView)| entry.1),
    decreases all.len(),
{
    let is_own = |m: Mention| paths::components(m.path) == at;
    let log = |m: Mention| m.log;
    let line = |m: Mention| (paths::components(m.path), m.log);
    let is_there = |entry: (Seq<Seq<char>>, LogView)| entry.0 == at;
    let second = |entry: (Seq<Seq<char>>, LogView)| entry.1;
    reveal(Seq::filter);
    if all.len() == 0 {
        assert(all.filter(is_own).map_values(log) =~= all.map_values(line).filter(
            is_there,
        ).map_values(second));
    } else {
        let less = all.drop_last();
        lemma_own_lines(less, at);
        assert(all.map_values(line).drop_last() =~= less.map_values(line));
        assert(all.map_values(line).last() == line(all.last()));
        let lines = less.map_values(line).filter(is_there);
        if is_own(all.last()) {
            assert(is_there(line(all.last())));
            assert(all.filter(is_own) == less.filter(is_own).push(all.last()));
            assert(all.map_values(line).filter(is_there) == lines.push(line(all.last())));
            assert(lines.push(line(all.last())).map_values(second) =~= lines.map_values(
                second,
            ).push(all.last().log));
            assert(less.filter(is_own).push(all.last()).map_values(log) =~= less.filter(
                is_own,
            ).map_values(log).push(all.last().log));
        } else {
            assert(!is_there(line(all.last())));
            assert(all.map_values(line).filter(is_there) == lines);
        }
        assert(all.filter(is_own).map_values(log) =~= all.map_values(line).filter(
            is_there,
        ).map_values(second));
    }
}

/// The place of each change among the bumps.
proof fn lemma_change_is_mentioned(files: Seq<LogFile>, f: int, c: int) -> (k: int)
    requires
        0 <= f < files.len(),
        0 <= c < files[f].log.changes@.len(),
    ensures
        0 <= k < mentions(files).len(),
        mentions(files)[k] == mention(files[f], c),
    decreases files.len(),
{
    let less = files.drop_last();
    if f == files.len() - 1 {
        let k = mentions(less).len() + c;
        assert(mentions(files)[k] == file_mentions(files.last())[c]);
        k
    } else {
        let k = lemma_change_is_mentioned(less, f, c);
        assert(mentions(files)[k] == mentions(less)[k]);
        k
    }
}

/// A plan holds every bump of every log: for each path that a log mentions, the
/// changelog of its update lists the bump and the note of all the changes with
/// that path, log by log and change by change.
pub proof fn plan_lists_every_change(
    files: Seq<LogFile>,
    rules: Seq<config::RuleView>,
    plan: UpdatePlan,
    f: int,
    c: int,
)
    requires
        is_planned(mentions(files), rules, plan),
        0 <= f < files.len(),
        0 <= c < files[f].log.changes@.len(),
    ensures
        ({
            let at = paths::components(files[f].log.changes@[c].path@);
            let changes = files.map_values(
                |file: LogFile|
                    file.log.changes@.map_values(
                        |change: Change|
                            (
                                paths::components(change.path@),
                                LogView {
                                    update_type: change.update_type,
                                    note: file.log.note@,
                                },
                            ),
                    ),
            ).flatten();
            &&& plan.updates@.contains_key(at)
            &&& plan.updates@[at].logs == changes.filter(
                |entry: (Seq<Seq<char>>, LogView)| entry.0 == at,
            ).map_values(|entry: (Seq<Seq<char>>, LogView)| entry.1)
            &&& plan.updates@[at].logs.contains(
                LogView {
                    update_type: files[f].log.changes@[c].update_type,
                    note: files[f].log.note@,
                },
            )
        }),
{
    let all = mentions(files);
    let at = paths::components(files[f].log.changes@[c].path@);
    let is_own = |m: Mention| paths::components(m.path) == at;
    let k = lemma_change_is_mentioned(files, f, c);
    assert(is_own(all[k]));
    all.lemma_filter_contains(is_own, k);
    changelog_lists_every_bump(all, at);
    rules_keep_logged_updates(all, rules, plan, at);
    lemma_mentions_flat(files);
    lemma_own_lines(all, at);
    let own = all.filter(is_own);
    let o = choose|o: int| 0 <= o < own.len() && own[o] == all[k];
    assert(own.map_values(|m: Mention| m.log)[o] == all[k].log);
}

} // verus!
