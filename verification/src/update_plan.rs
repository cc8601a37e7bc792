//! Planned updates together with where each came from.

use crate::apply_reverse_dependencies;
use crate::apply_reverse_dependencies::{
    apply_reverse_dependencies_with_provenance, GeneratedUpdate, ReverseDependencyError,
};
use crate::ordering;
use crate::path_map::PathMap;
use crate::paths;
use crate::project::Project;
use crate::project_names;
use crate::update_map;
use crate::update_map::{EntryView, UpdateEntry, UpdateMap};
use crate::update_type::UpdateType;
use vstd::prelude::*;
use vstd::string::*;

verus! {

/// Whether a generated update has been written to a log before.
#[derive(Clone, Copy, Debug, PartialEq, Eq, Structural)]
pub enum GeneratedState {
    Fresh,
    Persisted,
}

/// Where a planned update came from.
#[derive(Debug)]
pub enum UpdateProvenance {
    Explicit,
    Generated { notes: Vec<String>, state: GeneratedState },
}

/// [`UpdateProvenance`] over mathematical values.
pub enum ProvenanceView {
    Explicit,
    Generated { notes: Seq<Seq<char>>, state: GeneratedState },
}

impl View for UpdateProvenance {
    type V = ProvenanceView;

    open spec fn view(&self) -> ProvenanceView {
        match self {
            UpdateProvenance::Explicit => ProvenanceView::Explicit,
            UpdateProvenance::Generated { notes, state } => ProvenanceView::Generated {
                notes: paths::views(notes@),
                state: *state,
            },
        }
    }
}

/// The provenance by the components of the paths.
pub open spec fn provenance_view(
    provenance: Map<Seq<Seq<char>>, UpdateProvenance>,
) -> Map<Seq<Seq<char>>, ProvenanceView> {
    provenance.map_values(|p: UpdateProvenance| p@)
}

/// A changepack log: the bumps it asks for, and its note.
#[derive(Debug)]
pub struct ChangePackLog {
    pub changes: Vec<Change>,
    pub note: String,
}

/// One bump that a log asks for.
#[derive(Debug)]
pub struct Change {
    pub path: String,
    pub update_type: UpdateType,
}

/// [`ChangePackLog`] over mathematical values.
#[verifier::ext_equal]
pub struct ChangePackLogView {
    pub changes: Seq<(Seq<char>, UpdateType)>,
    pub note: Seq<char>,
}

impl View for ChangePackLog {
    type V = ChangePackLogView;

    open spec fn view(&self) -> ChangePackLogView {
        ChangePackLogView {
            changes: self.changes@.map_values(|c: Change| (c.path@, c.update_type)),
            note: self.note@,
        }
    }
}

/// Planned updates together with their explicit or generated origin.
#[derive(Debug)]
pub struct UpdatePlan {
    pub updates: UpdateMap,
    pub provenance: PathMap<UpdateProvenance>,
    pub expansion_seeds: Vec<String>,
}

/// The provenance with a fresh one for each generated update.
pub open spec fn with_generated(
    provenance: Map<Seq<Seq<char>>, ProvenanceView>,
    generated: Seq<GeneratedUpdate>,
) -> Map<Seq<Seq<char>>, ProvenanceView>
    decreases generated.len(),
{
    if generated.len() == 0 {
        provenance
    } else {
        with_generated(provenance, generated.drop_last()).insert(
            paths::components(generated.last().path@),
            ProvenanceView::Generated {
                notes: seq![generated.last().note@],
                state: GeneratedState::Fresh,
            },
        )
    }
}

/// What the source's provenance makes of the target's: an explicit origin
/// wins, and generated notes add up.
pub open spec fn merged_origin(target: ProvenanceView, source: ProvenanceView) -> ProvenanceView {
    match (target, source) {
        (ProvenanceView::Explicit, _) => ProvenanceView::Explicit,
        (_, ProvenanceView::Explicit) => ProvenanceView::Explicit,
        (
            ProvenanceView::Generated { notes, state },
            ProvenanceView::Generated { notes: more, state: other },
        ) => ProvenanceView::Generated {
            notes: notes + more,
            state: if other == GeneratedState::Persisted {
                GeneratedState::Persisted
            } else {
                state
            },
        },
    }
}

/// Seeds with the source's seed moved to the target.
pub open spec fn merged_seeds(
    seeds: Set<Seq<Seq<char>>>,
    source: Seq<Seq<char>>,
    target: Seq<Seq<char>>,
) -> Set<Seq<Seq<char>>> {
    if seeds.contains(source) {
        seeds.remove(source).insert(target)
    } else {
        seeds
    }
}

/// Provenance with the source's folded into the target's.
pub open spec fn merged_provenance(
    provenance: Map<Seq<Seq<char>>, ProvenanceView>,
    source: Seq<Seq<char>>,
    target: Seq<Seq<char>>,
) -> Map<Seq<Seq<char>>, ProvenanceView> {
    if provenance.contains_key(source) {
        let rest = provenance.remove(source);
        if rest.contains_key(target) {
            rest.insert(target, merged_origin(rest[target], provenance[source]))
        } else {
            rest.insert(target, provenance[source])
        }
    } else {
        provenance
    }
}

/// A project path whose bump is owned by another path.
#[derive(Debug)]
pub struct MergedPair {
    pub source: String,
    pub target: String,
}

/// The seeds after the first `n` pairs.
pub open spec fn seeds_after(
    seeds: Set<Seq<Seq<char>>>,
    pairs: Seq<MergedPair>,
    n: nat,
) -> Set<Seq<Seq<char>>>
    decreases n,
{
    if n == 0 {
        seeds
    } else {
        let pair = pairs[n - 1];
        merged_seeds(
            seeds_after(seeds, pairs, (n - 1) as nat),
            paths::components(pair.source@),
            paths::components(pair.target@),
        )
    }
}

/// The provenance after the first `n` pairs.
pub open spec fn provenance_after(
    provenance: Map<Seq<Seq<char>>, ProvenanceView>,
    pairs: Seq<MergedPair>,
    n: nat,
) -> Map<Seq<Seq<char>>, ProvenanceView>
    decreases n,
{
    if n == 0 {
        provenance
    } else {
        let pair = pairs[n - 1];
        merged_provenance(
            provenance_after(provenance, pairs, (n - 1) as nat),
            paths::components(pair.source@),
            paths::components(pair.target@),
        )
    }
}

/// Adds `path` unless it is already listed.
fn insert_seed(seeds: &mut Vec<String>, path: &str)
    requires
        paths::distinct_paths(old(seeds)@),
    ensures
        paths::distinct_paths(final(seeds)@),
        paths::place_set(final(seeds)@) == paths::place_set(old(seeds)@).insert(
            paths::components(path@),
        ),
{
    let ghost before = seeds@;
    if paths::holds_path(seeds, path) {
        proof {
            assert(paths::place_set(seeds@) =~= paths::place_set(before).insert(
                paths::components(path@),
            ));
        }
        return ;
    }
    seeds.push(path.to_string());
    proof {
        paths::place_set_push(before, seeds@.last());
        assert(seeds@ =~= before.push(seeds@.last()));
        assert forall|i: int, j: int| 0 <= i < j < seeds@.len() implies paths::components(
            (#[trigger] seeds@[i])@,
        ) != paths::components((#[trigger] seeds@[j])@) by {
            assert(seeds@[i] == before[i]);
            if j < before.len() {
                assert(seeds@[j] == before[j]);
            } else {
                assert(paths::place_set(before).contains(paths::components(before[i]@)));
            }
        }
    }
}

/// Drops `path` from the list, and says whether it was listed.
fn remove_seed(seeds: &mut Vec<String>, path: &str) -> (held: bool)
    requires
        paths::distinct_paths(old(seeds)@),
    ensures
        paths::distinct_paths(final(seeds)@),
        held == paths::place_set(old(seeds)@).contains(paths::components(path@)),
        paths::place_set(final(seeds)@) == paths::place_set(old(seeds)@).remove(
            paths::components(path@),
        ),
{
    let ghost before = seeds@;
    let ghost place = paths::components(path@);
    let mut at: usize = 0;
    while at < seeds.len()
        invariant
            at <= seeds@.len(),
            seeds@ == before,
            before == old(seeds)@,
            place == paths::components(path@),
            paths::distinct_paths(before),
            forall|k: int| 0 <= k < at ==> paths::components((#[trigger] before[k])@) != place,
        decreases seeds@.len() - at,
    {
        if paths::same_path(seeds[at].as_str(), path) {
            let gone: String = seeds.remove(at);
            proof {
                let after = before.remove(at as int);
                assert(seeds@ == after);
                assert forall|i: int, j: int| 0 <= i < j < after.len() implies paths::components(
                    (#[trigger] after[i])@,
                ) != paths::components((#[trigger] after[j])@) by {
                    let oi = if i < at { i } else { i + 1 };
                    let oj = if j < at { j } else { j + 1 };
                    assert(after[i] == before[oi]);
                    assert(after[j] == before[oj]);
                }
                assert forall|k: Seq<Seq<char>>| paths::place_set(after).contains(k)
                    == paths::place_set(before).remove(place).contains(k) by {
                    if paths::place_set(after).contains(k) {
                        let i = choose|i: int|
                            0 <= i < after.len() && paths::components((#[trigger] after[i])@) == k;
                        let oi = if i < at { i } else { i + 1 };
                        assert(after[i] == before[oi]);
                        assert(paths::components(before[oi]@) == k);
                        if k == place {
                            assert(paths::components(before[at as int]@) == paths::components(
                                before[oi]@,
                            ));
                        }
                    }
                    if paths::place_set(before).contains(k) && k != place {
                        let oi = choose|oi: int|
                            0 <= oi < before.len() && paths::components((#[trigger] before[oi])@)
                                == k;
                        let i = if oi < at { oi } else { oi - 1 };
                        assert(after[i] == before[oi]);
                    }
                }
                assert(paths::place_set(after) =~= paths::place_set(before).remove(place));
                assert(paths::components(before[at as int]@) == place);
            }
            return true;
        }
        at = at + 1;
    }
    proof {
        assert(paths::place_set(seeds@) =~= paths::place_set(before).remove(place));
    }
    false
}

/// A copy of the notes, then the other notes.
fn notes_of(target: &Vec<String>, source: &Vec<String>) -> (notes: Vec<String>)
    ensures
        paths::views(notes@) == paths::views(target@) + paths::views(source@),
{
    let mut notes: Vec<String> = paths::copy_texts(target);
    let mut i: usize = 0;
    while i < source.len()
        invariant
            i <= source@.len(),
            notes@ == target@ + source@.take(i as int),
        decreases source@.len() - i,
    {
        notes.push(source[i].clone());
        proof {
            assert(notes@ =~= target@ + source@.take(i as int + 1));
        }
        i = i + 1;
    }
    proof {
        assert(source@.take(i as int) =~= source@);
        assert(paths::views(notes@) =~= paths::views(target@) + paths::views(source@));
    }
    notes
}

fn merge_origin(target: UpdateProvenance, source: UpdateProvenance) -> (merged: UpdateProvenance)
    ensures
        merged@ == merged_origin(target@, source@),
{
    match (target, source) {
        (UpdateProvenance::Explicit, _) => UpdateProvenance::Explicit,
        (UpdateProvenance::Generated { .. }, UpdateProvenance::Explicit) => {
            UpdateProvenance::Explicit
        },
        (
            UpdateProvenance::Generated { notes, state },
            UpdateProvenance::Generated { notes: more, state: other },
        ) => UpdateProvenance::Generated {
            notes: notes_of(&notes, &more),
            state: match other {
                GeneratedState::Persisted => GeneratedState::Persisted,
                GeneratedState::Fresh => state,
            },
        },
    }
}

impl UpdatePlan {
    /// No path is planned, recorded or seeded twice.
    pub open spec fn well_formed(&self) -> bool {
        &&& self.updates.well_formed()
        &&& self.provenance.well_formed()
        &&& paths::distinct_paths(self.expansion_seeds@)
    }

    /// Where each planned update came from.
    pub open spec fn origins(&self) -> Map<Seq<Seq<char>>, ProvenanceView> {
        provenance_view(self.provenance@)
    }

    /// The paths that may seed an expansion.
    pub open spec fn seeds(&self) -> Set<Seq<Seq<char>>> {
        paths::place_set(self.expansion_seeds@)
    }

    /// The planned updates.
    pub fn updates(&self) -> (updates: &UpdateMap)
        ensures
            *updates == self.updates,
    {
        &self.updates
    }

    pub(crate) fn record_generated(&mut self, generated: &Vec<GeneratedUpdate>)
        requires
            old(self).well_formed(),
        ensures
            final(self).well_formed(),
            final(self).updates == old(self).updates,
            final(self).expansion_seeds == old(self).expansion_seeds,
            final(self).origins() == with_generated(old(self).origins(), generated@),
    {
        let ghost before = self.origins();
        let mut i: usize = 0;
        while i < generated.len()
            invariant
                i <= generated@.len(),
                self.well_formed(),
                self.updates == old(self).updates,
                self.expansion_seeds == old(self).expansion_seeds,
                self.origins() == with_generated(before, generated@.take(i as int)),
            decreases generated@.len() - i,
        {
            let mut notes: Vec<String> = Vec::new();
            notes.push(generated[i].note.clone());
            let ghost earlier = self.provenance@;
            let fresh = UpdateProvenance::Generated { notes, state: GeneratedState::Fresh };
            proof {
                assert(generated@.take(i as int + 1).drop_last() =~= generated@.take(i as int));
                assert(paths::views(notes@) =~= seq![generated@[i as int].note@]);
            }
            self.provenance.insert(generated[i].path.clone(), fresh);
            proof {
                assert(self.origins() =~= provenance_view(earlier).insert(
                    paths::components(generated@[i as int].path@),
                    fresh@,
                ));
            }
            i = i + 1;
        }
        proof {
            assert(generated@.take(i as int) =~= generated@);
        }
    }

    /// Expands the plan to the projects that depend on a seed, and records the
    /// generated updates as fresh ones.
    pub fn apply_reverse_dependencies(
        &mut self,
        projects: &[&Project],
        repo_root_path: &str,
    ) -> (result: Result<(), ReverseDependencyError>)
        requires
            old(self).well_formed(),
            project_names::all_well_formed(projects@),
        ensures
            final(self).well_formed(),
            final(self).expansion_seeds == old(self).expansion_seeds,
            match result {
                Ok(_) => {
                    let all = project_names::facts(projects@);
                    &&& apply_reverse_dependencies::is_unambiguous(all)
                    &&& apply_reverse_dependencies::has_work(
                        all,
                        old(self).updates@,
                        old(self).seeds(),
                    ) ==> apply_reverse_dependencies::all_inside(all, repo_root_path@)
                    &&& !apply_reverse_dependencies::has_dependencies(all) ==> final(self).updates@
                        == old(self).updates@
                    &&& apply_reverse_dependencies::has_dependencies(all) ==> exists|
                        queue: Seq<Seq<char>>,
                    | #[trigger]
                        apply_reverse_dependencies::is_expansion(
                            all,
                            repo_root_path@,
                            old(self).updates@.dom(),
                            old(self).seeds(),
                            queue,
                        ) && apply_reverse_dependencies::is_expanded(
                            all,
                            repo_root_path@,
                            queue,
                            old(self).updates@,
                            final(self).updates@,
                        )
                    &&& exists|generated: Seq<GeneratedUpdate>| #[trigger]
                        apply_reverse_dependencies::lists_generated(
                            generated,
                            old(self).updates@,
                            final(self).updates@,
                        ) && final(self).origins() == with_generated(
                            old(self).origins(),
                            generated,
                        )
                },
                Err(ReverseDependencyError::Ambiguous { name, candidates }) => {
                    &&& project_names::is_first_ambiguity(project_names::facts(projects@), name@)
                    &&& apply_reverse_dependencies::are_candidates(
                        project_names::facts(projects@),
                        name@,
                        paths::views(candidates@),
                    )
                    &&& *final(self) == *old(self)
                },
                Err(ReverseDependencyError::OutsideRepository { path }) => {
                    let all = project_names::facts(projects@);
                    &&& apply_reverse_dependencies::is_unambiguous(all)
                    &&& apply_reverse_dependencies::has_work(
                        all,
                        old(self).updates@,
                        old(self).seeds(),
                    )
                    &&& exists|i: int| #[trigger]
                        apply_reverse_dependencies::is_first_outside(all, repo_root_path@, i)
                            && all[i].path == path@
                    &&& *final(self) == *old(self)
                },
            },
    {
        match apply_reverse_dependencies_with_provenance(
            &mut self.updates,
            projects,
            repo_root_path,
            Some(&self.expansion_seeds),
        ) {
            Ok(generated) => {
                self.record_generated(&generated);
                Ok(())
            },
            Err(error) => Err(error),
        }
    }

    /// Folds the seeds and the provenance of each source into its target.
    pub fn merge_provenance(&mut self, merged_pairs: &Vec<MergedPair>)
        requires
            old(self).well_formed(),
        ensures
            final(self).well_formed(),
            final(self).updates == old(self).updates,
            final(self).seeds() == seeds_after(
                old(self).seeds(),
                merged_pairs@,
                merged_pairs@.len(),
            ),
            final(self).origins() == provenance_after(
                old(self).origins(),
                merged_pairs@,
                merged_pairs@.len(),
            ),
    {
        let mut i: usize = 0;
        while i < merged_pairs.len()
            invariant
                i <= merged_pairs@.len(),
                self.well_formed(),
                self.updates == old(self).updates,
                self.seeds() == seeds_after(old(self).seeds(), merged_pairs@, i as nat),
                self.origins() == provenance_after(old(self).origins(), merged_pairs@, i as nat),
            decreases merged_pairs@.len() - i,
        {
            let source: &str = merged_pairs[i].source.as_str();
            let target: &str = merged_pairs[i].target.as_str();
            let ghost from = paths::components(source@);
            let ghost to = paths::components(target@);
            let ghost before_seeds = self.seeds();
            let ghost before = self.provenance@;
            if remove_seed(&mut self.expansion_seeds, source) {
                insert_seed(&mut self.expansion_seeds, target);
            } else {
                proof {
                    assert(self.seeds() =~= before_seeds);
                }
            }
            match self.provenance.remove(source) {
                Some(moved) => {
                    let ghost moved_view = moved@;
                    let merged: UpdateProvenance = match self.provenance.remove(target) {
                        Some(kept) => merge_origin(kept, moved),
                        None => moved,
                    };
                    self.provenance.insert(target.to_string(), merged);
                    proof {
                        assert(self.origins() =~= merged_provenance(
                            provenance_view(before),
                            from,
                            to,
                        ));
                    }
                },
                None => {
                    proof {
                        assert(self.provenance@ =~= before);
                    }
                },
            }
            i = i + 1;
        }
    }

    /// The scheduled paths that `retain` refuses.
    fn refused_paths(&self, retain: impl Fn(&str) -> bool) -> (refused: Vec<String>)
        requires
            self.well_formed(),
            forall|path: &str| #[trigger] call_requires(retain, (path,)),
        ensures
            are_scheduled(refused@, self.updates@),
            paths::views(refused@).no_duplicates(),
            forall|at: Seq<Seq<char>>| #[trigger]
                self.updates@.contains_key(at) ==> is_answer(
                    retain,
                    self.updates@[at].path,
                    !paths::place_set(refused@).contains(at),
                ),
    {
        let mut refused: Vec<String> = Vec::new();
        let mut i: usize = 0;
        while i < self.updates.entries.len()
            invariant
                i <= self.updates.entries@.len(),
                self.well_formed(),
                forall|path: &str| #[trigger] call_requires(retain, (path,)),
                forall|r: int|
                    0 <= r < refused@.len() ==> exists|k: int|
                        0 <= k < i && (#[trigger] self.updates.entries@[k]).path@ == (
                        #[trigger] refused@[r])@,
                paths::views(refused@).no_duplicates(),
                forall|k: int|
                    0 <= k < i ==> is_answer(
                        retain,
                        (#[trigger] self.updates.entries@[k]).path@,
                        !paths::place_set(refused@).contains(
                            paths::components(self.updates.entries@[k].path@),
                        ),
                    ),
            decreases self.updates.entries@.len() - i,
        {
            let path: &str = self.updates.entries[i].path.as_str();
            let ghost listed = refused@;
            let kept: bool = retain(path);
            proof {
                assert(is_answer(retain, path@, kept));
                assert forall|r: int| 0 <= r < listed.len() implies paths::components(
                    (#[trigger] listed[r])@,
                ) != paths::components(path@) by {
                    let k = choose|k: int|
                        0 <= k < i && (#[trigger] self.updates.entries@[k]).path@ == listed[r]@;
                    assert(paths::components(self.updates.entries@[k].path@) != paths::components(
                        self.updates.entries@[i as int].path@,
                    ));
                }
            }
            if !kept {
                refused.push(path.to_string());
                proof {
                    assert(refused@ =~= listed.push(refused@.last()));
                    paths::place_set_push(listed, refused@.last());
                    assert(paths::views(refused@) =~= paths::views(listed).push(path@));
                    assert forall|r: int| 0 <= r < refused@.len() implies exists|k: int|
                        0 <= k < i + 1 && (#[trigger] self.updates.entries@[k]).path@ == (
                        #[trigger] refused@[r])@ by {
                        if r < listed.len() {
                            assert(refused@[r] == listed[r]);
                        } else {
                            assert(self.updates.entries@[i as int].path@ == refused@[r]@);
                        }
                    }
                    assert forall|a: int, b: int|
                        0 <= a < refused@.len() && 0 <= b < refused@.len() && a
                            != b implies paths::views(refused@)[a] != paths::views(
                        refused@,
                    )[b] by {
                        if a < listed.len() && b < listed.len() {
                            assert(paths::views(listed)[a] != paths::views(listed)[b]);
                        } else if a < listed.len() {
                            assert(paths::components(listed[a]@) != paths::components(path@));
                        } else {
                            assert(paths::components(listed[b]@) != paths::components(path@));
                        }
                    }
                }
            }
            proof {
                assert forall|k: int| 0 <= k < i + 1 implies is_answer(
                    retain,
                    (#[trigger] self.updates.entries@[k]).path@,
                    !paths::place_set(refused@).contains(
                        paths::components(self.updates.entries@[k].path@),
                    ),
                ) by {
                    if k < i {
                        assert(paths::components(self.updates.entries@[k].path@)
                            != paths::components(path@));
                    } else {
                        assert(!paths::place_set(listed).contains(paths::components(path@)));
                    }
                }
            }
            i = i + 1;
        }
        proof {
            assert forall|r: int| 0 <= r < refused@.len() implies is_scheduled(
                (#[trigger] refused@[r])@,
                self.updates@,
            ) by {
                let k = choose|k: int|
                    0 <= k < i && (#[trigger] self.updates.entries@[k]).path@ == refused@[r]@;
                self.updates.entry_in_view(k);
            }
            assert forall|at: Seq<Seq<char>>| #[trigger]
                self.updates@.contains_key(at) implies is_answer(
                retain,
                self.updates@[at].path,
                !paths::place_set(refused@).contains(at),
            ) by {
                let k = update_map::position_of(self.updates.entries@, at);
                self.updates.entry_in_view(k);
                assert(is_answer(
                    retain,
                    self.updates.entries@[k].path@,
                    !paths::place_set(refused@).contains(
                        paths::components(self.updates.entries@[k].path@),
                    ),
                ));
            }
        }
        refused
    }

    /// Drops the updates that `retain` refuses, and returns a log for each note
    /// of a dropped update that was freshly generated.
    pub fn retain_updates(&mut self, retain: impl Fn(&str) -> bool) -> (carry_forward: Vec<
        ChangePackLog,
    >)
        requires
            old(self).well_formed(),
            forall|path: &str| #[trigger] call_requires(retain, (path,)),
        ensures
            final(self).well_formed(),
            final(self).expansion_seeds == old(self).expansion_seeds,
            forall|at: Seq<Seq<char>>| #[trigger]
                old(self).updates@.contains_key(at) ==> is_answer(
                    retain,
                    old(self).updates@[at].path,
                    final(self).updates@.contains_key(at),
                ),
            exists|excluded: Seq<Seq<char>>| #[trigger]
                is_exclusion(excluded, old(self).updates@) && final(self).updates@
                    == old(self).updates@.remove_keys(places(excluded)) && final(self).origins()
                    == old(self).origins().remove_keys(places(excluded)) && changepack_log_views(
                    carry_forward@,
                ) == carried_forward(excluded, old(self).updates@, old(self).origins()),
    {
        let ghost before = self.updates@;
        let ghost origins = self.origins();
        let refused: Vec<String> = self.refused_paths(retain);
        let sorted: Vec<String> = paths::sorted_paths(&refused);
        let ghost order = paths::views(sorted@);
        proof {
            lemma_sorted_exclusion(before, refused@, sorted@);
        }
        let mut carry_forward: Vec<ChangePackLog> = Vec::new();
        proof {
            assert(self.updates@ =~= before.remove_keys(places(order.take(0))));
            assert(self.origins() =~= origins.remove_keys(places(order.take(0))));
            assert(changepack_log_views(carry_forward@) =~= Seq::empty());
        }
        let mut i: usize = 0;
        while i < sorted.len()
            invariant
                i <= sorted@.len(),
                order == paths::views(sorted@),
                self.well_formed(),
                self.expansion_seeds == old(self).expansion_seeds,
                is_exclusion(order, before),
                self.updates@ == before.remove_keys(places(order.take(i as int))),
                self.origins() == origins.remove_keys(places(order.take(i as int))),
                changepack_log_views(carry_forward@) == carried_forward(
                    order.take(i as int),
                    before,
                    origins,
                ),
            decreases sorted@.len() - i,
        {
            let path: &str = sorted[i].as_str();
            let ghost at = paths::components(path@);
            let ghost earlier = self.provenance@;
            let ghost earlier_origins = self.origins();
            proof {
                lemma_next_exclusion(order, before, i as int);
                assert(order[i as int] == path@);
                assert(order.take(i as int + 1).drop_last() =~= order.take(i as int));
            }
            let gone: Option<UpdateEntry> = self.updates.remove(path);
            let origin: Option<UpdateProvenance> = self.provenance.remove(path);
            proof {
                assert(self.updates@ =~= before.remove_keys(places(order.take(i as int + 1))));
                assert(self.origins() =~= earlier_origins.remove(at));
                assert(self.origins() =~= origins.remove_keys(places(order.take(i as int + 1))));
            }
            match gone {
                Some(entry) => {
                    carry_notes(&mut carry_forward, path, entry.update_type, &origin);
                    proof {
                        assert(earlier.contains_key(at) == earlier_origins.contains_key(at));
                        assert(earlier_origins.contains_key(at) == origins.contains_key(at));
                        if earlier.contains_key(at) {
                            assert(earlier_origins[at] == earlier[at]@);
                            assert(earlier_origins[at] == origins[at]);
                        }
                        assert(optional_origin(origin) == origin_of(origins, at));
                    }
                },
                None => {},
            }
            i = i + 1;
        }
        proof {
            assert(order.take(i as int) =~= order);
            assert forall|at: Seq<Seq<char>>| #[trigger] before.contains_key(at) implies is_answer(
                retain,
                before[at].path,
                self.updates@.contains_key(at),
            ) by {
                assert(places(order).contains(at) == paths::place_set(refused@).contains(at));
            }
        }
        carry_forward
    }
}

/// `answer` is one that `retain` can give for `path`.
pub open spec fn is_answer(
    retain: impl Fn(&str) -> bool,
    path: Seq<char>,
    answer: bool,
) -> bool {
    exists|argument: &str|
        argument@ == path && #[trigger] call_ensures(retain, (argument,), answer)
}

/// An update is scheduled under exactly this path.
pub open spec fn is_scheduled(path: Seq<char>, updates: Map<Seq<Seq<char>>, EntryView>) -> bool {
    updates.contains_key(paths::components(path)) && updates[paths::components(path)].path == path
}

spec fn are_scheduled(listed: Seq<String>, updates: Map<Seq<Seq<char>>, EntryView>) -> bool {
    forall|i: int| 0 <= i < listed.len() ==> is_scheduled((#[trigger] listed[i])@, updates)
}

/// Where the listed paths lie.
pub open spec fn places(listed: Seq<Seq<char>>) -> Set<Seq<Seq<char>>> {
    Set::new(
        |at: Seq<Seq<char>>|
            exists|i: int|
                0 <= i < listed.len() && paths::components(#[trigger] listed[i]) == at,
    )
}

/// A list of scheduled paths in canonical order, each once.
pub open spec fn is_exclusion(
    excluded: Seq<Seq<char>>,
    updates: Map<Seq<Seq<char>>, EntryView>,
) -> bool {
    &&& forall|i: int|
        0 <= i < excluded.len() ==> is_scheduled(#[trigger] excluded[i], updates)
    &&& forall|i: int, j: int|
        0 <= i < j < excluded.len() ==> paths::path_lt(
            #[trigger] excluded[i],
            #[trigger] excluded[j],
        )
}

/// The provenance recorded for a place.
pub open spec fn origin_of(
    origins: Map<Seq<Seq<char>>, ProvenanceView>,
    at: Seq<Seq<char>>,
) -> Option<ProvenanceView> {
    if origins.contains_key(at) {
        Some(origins[at])
    } else {
        None
    }
}

spec fn optional_origin(origin: Option<UpdateProvenance>) -> Option<ProvenanceView> {
    match origin {
        Some(p) => Some(p@),
        None => None,
    }
}

/// The views of a list of logs.
pub open spec fn changepack_log_views(logs: Seq<ChangePackLog>) -> Seq<ChangePackLogView> {
    logs.map_values(|l: ChangePackLog| l@)
}

/// The logs that carry a dropped update into the next run: one for each note,
/// where it was freshly generated.
pub open spec fn carried_logs(
    path: Seq<char>,
    update_type: UpdateType,
    origin: Option<ProvenanceView>,
) -> Seq<ChangePackLogView> {
    match origin {
        Some(ProvenanceView::Generated { notes, state: GeneratedState::Fresh }) => notes.map_values(
            |note: Seq<char>|
                ChangePackLogView { changes: seq![(path, update_type)], note },
        ),
        _ => Seq::empty(),
    }
}

/// The logs that carry the dropped updates into the next run.
pub open spec fn carried_forward(
    excluded: Seq<Seq<char>>,
    updates: Map<Seq<Seq<char>>, EntryView>,
    origins: Map<Seq<Seq<char>>, ProvenanceView>,
) -> Seq<ChangePackLogView>
    decreases excluded.len(),
{
    if excluded.len() == 0 {
        Seq::empty()
    } else {
        let at = paths::components(excluded.last());
        carried_forward(excluded.drop_last(), updates, origins) + carried_logs(
            excluded.last(),
            updates[at].update_type,
            origin_of(origins, at),
        )
    }
}

/// Adds the logs that carry a dropped update into the next run.
fn carry_notes(
    logs: &mut Vec<ChangePackLog>,
    path: &str,
    update_type: UpdateType,
    origin: &Option<UpdateProvenance>,
)
    ensures
        changepack_log_views(final(logs)@) == changepack_log_views(old(logs)@) + carried_logs(
            path@,
            update_type,
            optional_origin(*origin),
        ),
{
    let ghost before = changepack_log_views(logs@);
    let ghost carried = carried_logs(path@, update_type, optional_origin(*origin));
    match origin {
        Some(UpdateProvenance::Generated { notes, state: GeneratedState::Fresh }) => {
            let mut i: usize = 0;
            while i < notes.len()
                invariant
                    i <= notes@.len(),
                    carried.len() == notes@.len(),
                    forall|k: int|
                        0 <= k < notes@.len() ==> (#[trigger] carried[k]) == (ChangePackLogView {
                            changes: seq![(path@, update_type)],
                            note: notes@[k]@,
                        }),
                    changepack_log_views(logs@) == before + carried.take(i as int),
                decreases notes@.len() - i,
            {
                let ghost earlier = logs@;
                let mut changes: Vec<Change> = Vec::new();
                changes.push(Change { path: path.to_string(), update_type });
                logs.push(ChangePackLog { changes, note: notes[i].clone() });
                proof {
                    assert(logs@.last()@.changes =~= seq![(path@, update_type)]);
                    assert(changepack_log_views(logs@) =~= changepack_log_views(earlier).push(
                        carried[i as int],
                    ));
                    assert(carried.take(i as int + 1) =~= carried.take(i as int).push(
                        carried[i as int],
                    ));
                    assert(changepack_log_views(logs@) =~= before + carried.take(i as int + 1));
                }
                i = i + 1;
            }
            proof {
                assert(carried.take(i as int) =~= carried);
            }
        },
        _ => {
            proof {
                assert(changepack_log_views(logs@) =~= before + carried);
            }
        },
    }
}

/// The sorted list of refused paths lists them all, in strict order.
proof fn lemma_sorted_exclusion(
    updates: Map<Seq<Seq<char>>, EntryView>,
    refused: Seq<String>,
    sorted: Seq<String>,
)
    requires
        are_scheduled(refused, updates),
        paths::views(sorted).no_duplicates(),
        paths::views(sorted).to_multiset() == paths::views(refused).to_multiset(),
        forall|i: int, j: int|
            0 <= i < j < sorted.len() ==> !paths::path_lt(
                (#[trigger] sorted[j])@,
                (#[trigger] sorted[i])@,
            ),
    ensures
        is_exclusion(paths::views(sorted), updates),
        places(paths::views(sorted)) == paths::place_set(refused),
{
    broadcast use vstd::seq_lib::group_to_multiset_ensures;

    let order = paths::views(sorted);
    let list = paths::views(refused);
    assert forall|i: int| 0 <= i < order.len() implies exists|r: int|
        0 <= r < refused.len() && (#[trigger] refused[r])@ == #[trigger] order[i] by {
        assert(order.to_multiset().contains(order[i]));
        assert(list.contains(order[i]));
        let r = choose|r: int| 0 <= r < list.len() && list[r] == order[i];
        assert(refused[r]@ == order[i]);
    }
    assert forall|r: int| 0 <= r < refused.len() implies exists|i: int|
        0 <= i < order.len() && #[trigger] order[i] == (#[trigger] refused[r])@ by {
        assert(list[r] == refused[r]@);
        assert(list.to_multiset().contains(list[r]));
        assert(order.contains(list[r]));
    }
    assert forall|i: int| 0 <= i < order.len() implies is_scheduled(#[trigger] order[i], updates) by {
        let r = choose|r: int| 0 <= r < refused.len() && (#[trigger] refused[r])@ == order[i];
        assert(is_scheduled(refused[r]@, updates));
    }
    assert forall|i: int, j: int| 0 <= i < j < order.len() implies paths::path_lt(
        #[trigger] order[i],
        #[trigger] order[j],
    ) by {
        assert(order[i] == sorted[i]@);
        assert(order[j] == sorted[j]@);
        let a = paths::path_sort_key(order[i]);
        let b = paths::path_sort_key(order[j]);
        ordering::list_lt_total(a, b);
        if a == b {
            assert(a[1] == order[i] && b[1] == order[j]);
        }
    }
    assert forall|at: Seq<Seq<char>>| places(order).contains(at) == paths::place_set(
        refused,
    ).contains(at) by {
        if places(order).contains(at) {
            let i = choose|i: int|
                0 <= i < order.len() && paths::components(#[trigger] order[i]) == at;
            let r = choose|r: int| 0 <= r < refused.len() && (#[trigger] refused[r])@ == order[i];
            assert(paths::components(refused[r]@) == at);
        }
        if paths::place_set(refused).contains(at) {
            let r = choose|r: int|
                0 <= r < refused.len() && paths::components((#[trigger] refused[r])@) == at;
            let i = choose|i: int| 0 <= i < order.len() && #[trigger] order[i] == refused[r]@;
            assert(paths::components(order[i]) == at);
        }
    }
    assert(places(order) =~= paths::place_set(refused));
}

/// The next path to drop is still scheduled, and dropping it drops its place.
proof fn lemma_next_exclusion(
    order: Seq<Seq<char>>,
    updates: Map<Seq<Seq<char>>, EntryView>,
    i: int,
)
    requires
        is_exclusion(order, updates),
        0 <= i < order.len(),
    ensures
        is_scheduled(order[i], updates),
        !places(order.take(i)).contains(paths::components(order[i])),
        places(order.take(i + 1)) == places(order.take(i)).insert(paths::components(order[i])),
{
    let at = paths::components(order[i]);
    let less = order.take(i);
    let more = order.take(i + 1);
    if places(less).contains(at) {
        let k = choose|k: int| 0 <= k < less.len() && paths::components(#[trigger] less[k]) == at;
        assert(order[k] == less[k]);
        assert(is_scheduled(order[k], updates));
        assert(order[k] == order[i]);
        let key = paths::path_sort_key(order[i]);
        ordering::list_lt_total(key, key);
        assert(paths::path_lt(order[k], order[i]));
    }
    assert forall|p: Seq<Seq<char>>| places(more).contains(p) == places(less).insert(at).contains(
        p,
    ) by {
        if places(more).contains(p) {
            let k = choose|k: int| 0 <= k < more.len() && paths::components(#[trigger] more[k]) == p;
            if k < i {
                assert(less[k] == more[k]);
            } else {
                assert(more[k] == order[i]);
            }
        }
        if places(less).contains(p) {
            let k = choose|k: int| 0 <= k < less.len() && paths::components(#[trigger] less[k]) == p;
            assert(more[k] == less[k]);
        }
        if p == at {
            assert(more[i] == order[i]);
        }
    }
    assert(places(more) =~= places(less).insert(at));
}

/// Recording generated updates leaves the provenance of other paths alone.
pub proof fn lemma_with_generated_elsewhere(
    origins: Map<Seq<Seq<char>>, ProvenanceView>,
    generated: Seq<GeneratedUpdate>,
    at: Seq<Seq<char>>,
)
    requires
        forall|g: int|
            0 <= g < generated.len() ==> paths::components((#[trigger] generated[g]).path@) != at,
    ensures
        origin_of(with_generated(origins, generated), at) == origin_of(origins, at),
    decreases generated.len(),
{
    if generated.len() > 0 {
        let less = generated.drop_last();
        assert forall|g: int| 0 <= g < less.len() implies paths::components(
            (#[trigger] less[g]).path@,
        ) != at by {
            assert(less[g] == generated[g]);
        }
        lemma_with_generated_elsewhere(origins, less, at);
        assert(generated.last() == generated[generated.len() - 1]);
    }
}

/// A user-authored bump is never downgraded by a merge: where the source or
/// the target is explicit, the target is explicit afterwards.
pub proof fn explicit_origin_survives_merge(
    origins: Map<Seq<Seq<char>>, ProvenanceView>,
    source: Seq<Seq<char>>,
    target: Seq<Seq<char>>,
)
    requires
        origin_of(origins, source) == Some(ProvenanceView::Explicit) || origin_of(origins, target)
            == Some(ProvenanceView::Explicit),
    ensures
        origin_of(merged_provenance(origins, source, target), target) == Some(
            ProvenanceView::Explicit,
        ),
{
}

/// A merge moves what was recorded for the source: afterwards nothing is
/// recorded for a source that is not its own target, and no other path changes.
pub proof fn merge_moves_the_source(
    origins: Map<Seq<Seq<char>>, ProvenanceView>,
    seeds: Set<Seq<Seq<char>>>,
    source: Seq<Seq<char>>,
    target: Seq<Seq<char>>,
)
    requires
        source != target,
    ensures
        !merged_provenance(origins, source, target).contains_key(source),
        !merged_seeds(seeds, source, target).contains(source),
        seeds.contains(source) ==> merged_seeds(seeds, source, target).contains(target),
        forall|at: Seq<Seq<char>>|
            at != source && at != target ==> #[trigger] origin_of(
                merged_provenance(origins, source, target),
                at,
            ) == origin_of(origins, at),
        forall|at: Seq<Seq<char>>|
            at != source && at != target ==> (#[trigger] merged_seeds(
                seeds,
                source,
                target,
            ).contains(at) == seeds.contains(at)),
{
}

/// The logs carried forward hold exactly the fresh notes of the dropped
/// updates, each under the dropped path and bump.
pub proof fn fresh_notes_are_carried_forward(
    excluded: Seq<Seq<char>>,
    updates: Map<Seq<Seq<char>>, EntryView>,
    origins: Map<Seq<Seq<char>>, ProvenanceView>,
    log: ChangePackLogView,
)
    ensures
        carried_forward(excluded, updates, origins).contains(log) <==> exists|i: int, n: int|
            #[trigger] is_fresh_note(excluded, updates, origins, log, i, n),
    decreases excluded.len(),
{
    let carried = carried_forward(excluded, updates, origins);
    if excluded.len() > 0 {
        let less = excluded.drop_last();
        let last = excluded.len() - 1;
        let at = paths::components(excluded.last());
        let earlier = carried_forward(less, updates, origins);
        let own = carried_logs(excluded.last(), updates[at].update_type, origin_of(origins, at));
        fresh_notes_are_carried_forward(less, updates, origins, log);
        if carried.contains(log) {
            let k = choose|k: int| 0 <= k < carried.len() && carried[k] == log;
            if k < earlier.len() {
                assert(earlier[k] == log);
                assert(earlier.contains(log));
                let (i, n) = choose|i: int, n: int| #[trigger]
                    is_fresh_note(less, updates, origins, log, i, n);
                assert(less[i] == excluded[i]);
                assert(is_fresh_note(excluded, updates, origins, log, i, n));
            } else {
                assert(own[k - earlier.len()] == log);
                assert(is_fresh_note(excluded, updates, origins, log, last, k - earlier.len()));
            }
        }
        if exists|i: int, n: int| #[trigger]
            is_fresh_note(excluded, updates, origins, log, i, n) {
            let (i, n) = choose|i: int, n: int| #[trigger]
                is_fresh_note(excluded, updates, origins, log, i, n);
            if i < last {
                assert(less[i] == excluded[i]);
                assert(is_fresh_note(less, updates, origins, log, i, n));
                let k = choose|k: int| 0 <= k < earlier.len() && earlier[k] == log;
                assert(carried[k] == log);
            } else {
                assert(own[n] == log);
                assert(carried[earlier.len() + n] == log);
            }
        }
    }
}

/// `log` carries note `n` of the fresh update of `excluded[i]`.
pub open spec fn is_fresh_note(
    excluded: Seq<Seq<char>>,
    updates: Map<Seq<Seq<char>>, EntryView>,
    origins: Map<Seq<Seq<char>>, ProvenanceView>,
    log: ChangePackLogView,
    i: int,
    n: int,
) -> bool {
    &&& 0 <= i < excluded.len()
    &&& match origin_of(origins, paths::components(excluded[i])) {
        Some(ProvenanceView::Generated { notes, state: GeneratedState::Fresh }) => 0 <= n
            < notes.len() && log == (ChangePackLogView {
            changes: seq![
                (excluded[i], updates[paths::components(excluded[i])].update_type),
            ],
            note: notes[n],
        }),
        _ => false,
    }
}

} // verus!
