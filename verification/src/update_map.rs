//! Scheduled updates, keyed by project path.

use crate::ordering;
use crate::paths;
use crate::update_type::UpdateType;
use vstd::prelude::*;
use vstd::string::*;

verus! {

/// One changelog line: the bump it asks for and its note.
#[derive(Debug)]
pub struct ChangePackResultLog {
    pub update_type: UpdateType,
    pub note: String,
}

/// [`ChangePackResultLog`] over mathematical values.
pub struct LogView {
    pub update_type: UpdateType,
    pub note: Seq<char>,
}

impl View for ChangePackResultLog {
    type V = LogView;

    open spec fn view(&self) -> LogView {
        LogView { update_type: self.update_type, note: self.note@ }
    }
}

impl ChangePackResultLog {
    pub fn new(update_type: UpdateType, note: String) -> (log: Self)
        ensures
            log@ == (LogView { update_type, note: note@ }),
    {
        ChangePackResultLog { update_type, note }
    }
}

/// The views of a list of changelog lines.
pub open spec fn log_views(logs: Seq<ChangePackResultLog>) -> Seq<LogView> {
    logs.map_values(|l: ChangePackResultLog| l@)
}

/// A copy of a list of changelog lines.
pub fn copy_logs(logs: &Vec<ChangePackResultLog>) -> (copy: Vec<ChangePackResultLog>)
    ensures
        log_views(copy@) == log_views(logs@),
{
    let mut copy: Vec<ChangePackResultLog> = Vec::new();
    let mut i: usize = 0;
    while i < logs.len()
        invariant
            i <= logs.len(),
            copy.len() == i,
            forall|k: int| 0 <= k < i ==> (#[trigger] copy@[k])@ == logs@[k]@,
        decreases logs.len() - i,
    {
        copy.push(ChangePackResultLog::new(logs[i].update_type, logs[i].note.clone()));
        i = i + 1;
    }
    proof {
        assert(log_views(copy@) =~= log_views(logs@));
    }
    copy
}

/// A scheduled update of one project.
#[derive(Debug)]
pub struct UpdateEntry {
    pub path: String,
    pub update_type: UpdateType,
    pub logs: Vec<ChangePackResultLog>,
}

/// [`UpdateEntry`] over mathematical values.
pub struct EntryView {
    pub path: Seq<char>,
    pub update_type: UpdateType,
    pub logs: Seq<LogView>,
}

impl View for UpdateEntry {
    type V = EntryView;

    open spec fn view(&self) -> EntryView {
        EntryView {
            path: self.path@,
            update_type: self.update_type,
            logs: log_views(self.logs@),
        }
    }
}

/// The scheduled updates of a run, at most one for each path.
#[derive(Debug)]
pub struct UpdateMap {
    pub entries: Vec<UpdateEntry>,
}

/// The position of the entry for the path with the components `place`.
pub open spec fn position_of(entries: Seq<UpdateEntry>, place: Seq<Seq<char>>) -> int {
    choose|i: int|
        0 <= i < entries.len() && paths::components((#[trigger] entries[i]).path@) == place
}

/// Whether there is an entry for the path with the components `place`.
pub open spec fn has_entry(entries: Seq<UpdateEntry>, place: Seq<Seq<char>>) -> bool {
    exists|i: int|
        0 <= i < entries.len() && paths::components((#[trigger] entries[i]).path@) == place
}

impl View for UpdateMap {
    type V = Map<Seq<Seq<char>>, EntryView>;

    /// Entries by the components of their path.
    open spec fn view(&self) -> Map<Seq<Seq<char>>, EntryView> {
        Map::new(
            |place: Seq<Seq<char>>| has_entry(self.entries@, place),
            |place: Seq<Seq<char>>| self.entries@[position_of(self.entries@, place)]@,
        )
    }
}

impl UpdateMap {
    /// No two entries are for the same path.
    pub open spec fn well_formed(&self) -> bool {
        forall|i: int, j: int|
            0 <= i < j < self.entries@.len() ==> paths::components(
                (#[trigger] self.entries@[i]).path@,
            ) != paths::components((#[trigger] self.entries@[j]).path@)
    }

    /// The entries stand in the canonical order of their paths.
    pub open spec fn sorted(&self) -> bool {
        forall|i: int, j: int|
            0 <= i < j < self.entries@.len() ==> !paths::path_lt(
                (#[trigger] self.entries@[j]).path@,
                (#[trigger] self.entries@[i]).path@,
            )
    }

    /// Each entry is what the view holds for its path.
    pub proof fn entry_in_view(&self, i: int)
        requires
            self.well_formed(),
            0 <= i < self.entries@.len(),
        ensures
            self@.contains_key(paths::components(self.entries@[i].path@)),
            self@[paths::components(self.entries@[i].path@)] == self.entries@[i]@,
    {
        let place = paths::components(self.entries@[i].path@);
        let j = position_of(self.entries@, place);
        assert(0 <= j < self.entries@.len() && paths::components(self.entries@[j].path@) == place);
        assert(i == j);
    }

    /// An empty map.
    pub fn new() -> (map: Self)
        ensures
            map.well_formed(),
            map@ == Map::<Seq<Seq<char>>, EntryView>::empty(),
            map.entries@.len() == 0,
    {
        let map = UpdateMap { entries: Vec::new() };
        proof {
            assert(map@ =~= Map::<Seq<Seq<char>>, EntryView>::empty());
        }
        map
    }

    /// The position of the entry for `path`.
    pub fn find(&self, path: &str) -> (found: Option<usize>)
        requires
            self.well_formed(),
        ensures
            match found {
                Some(i) => i < self.entries@.len() && paths::components(self.entries@[i as int].path@)
                    == paths::components(path@) && self@.contains_key(paths::components(path@))
                    && self@[paths::components(path@)] == self.entries@[i as int]@,
                None => !self@.contains_key(paths::components(path@)),
            },
    {
        let mut i: usize = 0;
        while i < self.entries.len()
            invariant
                i <= self.entries.len(),
                self.well_formed(),
                forall|k: int|
                    0 <= k < i ==> paths::components((#[trigger] self.entries@[k]).path@)
                        != paths::components(path@),
            decreases self.entries.len() - i,
        {
            if paths::same_path(self.entries[i].path.as_str(), path) {
                proof {
                    self.entry_in_view(i as int);
                }
                return Some(i);
            }
            i = i + 1;
        }
        None
    }

    /// The scheduled update of `path`.
    pub fn get(&self, path: &str) -> (entry: Option<&UpdateEntry>)
        requires
            self.well_formed(),
        ensures
            match entry {
                Some(e) => self@.contains_key(paths::components(path@)) && self@[paths::components(
                    path@,
                )] == e@,
                None => !self@.contains_key(paths::components(path@)),
            },
    {
        match self.find(path) {
            Some(i) => Some(&self.entries[i]),
            None => None,
        }
    }

    /// Whether an update of `path` is scheduled.
    pub fn contains(&self, path: &str) -> (held: bool)
        requires
            self.well_formed(),
        ensures
            held == self@.contains_key(paths::components(path@)),
    {
        match self.find(path) {
            Some(_) => true,
            None => false,
        }
    }

    /// The paths with a scheduled update.
    pub fn paths(&self) -> (list: Vec<String>)
        requires
            self.well_formed(),
        ensures
            list@.len() == self.entries@.len(),
            forall|i: int| 0 <= i < list@.len() ==> (#[trigger] list@[i])@ == self.entries@[i].path@,
            paths::place_set(list@) == self@.dom(),
    {
        let mut list: Vec<String> = Vec::new();
        let mut i: usize = 0;
        while i < self.entries.len()
            invariant
                i <= self.entries.len(),
                list@.len() == i,
                forall|k: int| 0 <= k < i ==> (#[trigger] list@[k])@ == self.entries@[k].path@,
            decreases self.entries.len() - i,
        {
            list.push(self.entries[i].path.clone());
            i = i + 1;
        }
        proof {
            assert forall|at: Seq<Seq<char>>|
                paths::place_set(list@).contains(at) == self@.dom().contains(at) by {
                if paths::place_set(list@).contains(at) {
                    let k = choose|k: int|
                        0 <= k < list@.len() && paths::components((#[trigger] list@[k])@) == at;
                    assert(paths::components(self.entries@[k].path@) == at);
                }
                if self@.dom().contains(at) {
                    let k = position_of(self.entries@, at);
                    assert(paths::components(list@[k]@) == at);
                }
            }
            assert(paths::place_set(list@) =~= self@.dom());
        }
        list
    }

    /// The number of scheduled updates.
    pub fn len(&self) -> (length: usize)
        ensures
            length == self.entries@.len(),
    {
        self.entries.len()
    }

    /// Whether nothing is scheduled.
    pub fn is_empty(&self) -> (empty: bool)
        ensures
            empty == (self.entries@.len() == 0),
            empty == (self@ == Map::<Seq<Seq<char>>, EntryView>::empty()),
    {
        proof {
            if self.entries@.len() == 0 {
                assert(self@ =~= Map::<Seq<Seq<char>>, EntryView>::empty());
            } else {
                assert(has_entry(self.entries@, paths::components(self.entries@[0].path@)));
                assert(self@.contains_key(paths::components(self.entries@[0].path@)));
            }
        }
        self.entries.len() == 0
    }

    /// Puts the entries in the canonical order of their paths.
    pub fn sort(&mut self)
        requires
            old(self).well_formed(),
        ensures
            final(self).well_formed(),
            final(self).sorted(),
            final(self)@ == old(self)@,
            final(self).entries@.len() == old(self).entries@.len(),
    {
        let ghost before = *self;
        let mut keys: Vec<Vec<String>> = Vec::new();
        let mut i: usize = 0;
        while i < self.entries.len()
            invariant
                i <= self.entries.len(),
                keys.len() == i,
                forall|k: int|
                    0 <= k < i ==> paths::views((#[trigger] keys@[k])@) == paths::path_sort_key(
                        self.entries@[k].path@,
                    ),
            decreases self.entries.len() - i,
        {
            keys.push(paths::path_key(self.entries[i].path.as_str()));
            i = i + 1;
        }
        let order: Vec<usize> = ordering::sorted_positions(&keys);
        let mut entries: Vec<UpdateEntry> = Vec::new();
        let mut next: usize = 0;
        while next < order.len()
            invariant
                next <= order.len(),
                ordering::is_permutation(order@, self.entries@.len()),
                entries.len() == next,
                forall|k: int|
                    0 <= k < next ==> (#[trigger] entries@[k])@ == self.entries@[order@[k] as int]@,
            decreases order.len() - next,
        {
            let entry: &UpdateEntry = &self.entries[order[next]];
            let copy = UpdateEntry {
                path: entry.path.clone(),
                update_type: entry.update_type,
                logs: copy_logs(&entry.logs),
            };
            entries.push(copy);
            next = next + 1;
        }
        self.entries = entries;
        proof {
            let kv = ordering::key_views(keys@);
            assert forall|i: int, j: int| 0 <= i < j < self.entries@.len() implies paths::components(
                (#[trigger] self.entries@[i]).path@,
            ) != paths::components((#[trigger] self.entries@[j]).path@) && !paths::path_lt(
                self.entries@[j].path@,
                self.entries@[i].path@,
            ) by {
                let a = order@[i] as int;
                let b = order@[j] as int;
                assert(self.entries@[i]@ == before.entries@[a]@);
                assert(self.entries@[j]@ == before.entries@[b]@);
                assert(kv[a] == paths::views(keys@[a]@));
                assert(kv[b] == paths::views(keys@[b]@));
                before.entry_in_view(a);
                before.entry_in_view(b);
                if paths::components(before.entries@[a].path@) == paths::components(
                    before.entries@[b].path@,
                ) {
                    assert(a == b);
                }
            }
            assert forall|k: Seq<Seq<char>>| self@.contains_key(k) == before@.contains_key(k) by {
                if before@.contains_key(k) {
                    let a = position_of(before.entries@, k);
                    assert(order@.contains(a as usize));
                    let i = order@.index_of(a as usize);
                    assert(self.entries@[i]@ == before.entries@[a]@);
                }
                if self@.contains_key(k) {
                    let i = position_of(self.entries@, k);
                    assert(self.entries@[i]@ == before.entries@[order@[i] as int]@);
                }
            }
            assert forall|k: Seq<Seq<char>>| self@.contains_key(k) implies self@[k] == before@[k] by {
                let i = position_of(self.entries@, k);
                self.entry_in_view(i);
                before.entry_in_view(order@[i] as int);
                assert(self.entries@[i]@ == before.entries@[order@[i] as int]@);
            }
            assert(self@ =~= before@);
        }
    }

    /// Schedules an update of a path that has none yet.
    pub fn insert_new(&mut self, path: String, update_type: UpdateType, logs: Vec<
        ChangePackResultLog,
    >)
        requires
            old(self).well_formed(),
            !old(self)@.contains_key(paths::components(path@)),
        ensures
            final(self).well_formed(),
            final(self)@ == old(self)@.insert(
                paths::components(path@),
                EntryView { path: path@, update_type, logs: log_views(logs@) },
            ),
            final(self).entries@.len() == old(self).entries@.len() + 1,
    {
        let ghost before = *self;
        let ghost place = paths::components(path@);
        self.entries.push(UpdateEntry { path, update_type, logs });
        proof {
            let last = self.entries@.len() - 1;
            assert forall|i: int, j: int| 0 <= i < j < self.entries@.len() implies paths::components(
                (#[trigger] self.entries@[i]).path@,
            ) != paths::components((#[trigger] self.entries@[j]).path@) by {
                assert(self.entries@[i] == before.entries@[i]);
                if j == last {
                    before.entry_in_view(i);
                } else {
                    assert(self.entries@[j] == before.entries@[j]);
                }
            }
            let after = before@.insert(place, self.entries@[last]@);
            assert forall|k: Seq<Seq<char>>| self@.contains_key(k) == after.contains_key(k) by {
                if before@.contains_key(k) {
                    let i = position_of(before.entries@, k);
                    assert(self.entries@[i] == before.entries@[i]);
                }
                if k == place {
                    assert(self.entries@[last].path@ == path@);
                }
                if self@.contains_key(k) && k != place {
                    let i = position_of(self.entries@, k);
                    assert(i != last);
                    assert(before.entries@[i] == self.entries@[i]);
                }
            }
            assert forall|k: Seq<Seq<char>>| self@.contains_key(k) implies self@[k] == after[k] by {
                let i = position_of(self.entries@, k);
                self.entry_in_view(i);
                if i != last {
                    assert(before.entries@[i] == self.entries@[i]);
                    before.entry_in_view(i);
                } else {
                    assert(k == place);
                }
            }
            assert(self@ =~= after);
        }
    }

    /// Removes the update of `path`.
    pub fn remove(&mut self, path: &str) -> (entry: Option<UpdateEntry>)
        requires
            old(self).well_formed(),
        ensures
            final(self).well_formed(),
            final(self)@ == old(self)@.remove(paths::components(path@)),
            match entry {
                Some(e) => old(self)@.contains_key(paths::components(path@))
                    && old(self)@[paths::components(path@)] == e@,
                None => !old(self)@.contains_key(paths::components(path@)),
            },
    {
        let ghost before = *self;
        let ghost place = paths::components(path@);
        match self.find(path) {
            Some(at) => {
                let entry: UpdateEntry = self.entries.remove(at);
                proof {
                    let gone = before.entries@.remove(at as int);
                    assert(self.entries@ == gone);
                    assert forall|i: int| 0 <= i < gone.len() implies #[trigger] gone[i]
                        == before.entries@[if i < at {
                        i
                    } else {
                        i + 1
                    }] by {}
                    assert(self.well_formed()) by {
                        assert forall|i: int, j: int| 0 <= i < j < gone.len() implies paths::components(
                            (#[trigger] gone[i]).path@,
                        ) != paths::components((#[trigger] gone[j]).path@) by {
                            let oi = if i < at { i } else { i + 1 };
                            let oj = if j < at { j } else { j + 1 };
                            assert(gone[i] == before.entries@[oi]);
                            assert(gone[j] == before.entries@[oj]);
                        }
                    }
                    let after = before@.remove(place);
                    assert forall|k: Seq<Seq<char>>| self@.contains_key(k) == after.contains_key(
                        k,
                    ) by {
                        if self@.contains_key(k) {
                            let i = position_of(self.entries@, k);
                            let oi = if i < at { i } else { i + 1 };
                            assert(gone[i] == before.entries@[oi]);
                            before.entry_in_view(oi);
                            assert(oi != at);
                            if k == place {
                                assert(false);
                            }
                        }
                        if after.contains_key(k) {
                            let oi = position_of(before.entries@, k);
                            assert(oi != at);
                            let i = if oi < at { oi } else { oi - 1 };
                            assert(gone[i] == before.entries@[oi]);
                        }
                    }
                    assert forall|k: Seq<Seq<char>>| self@.contains_key(k) implies self@[k]
                        == after[k] by {
                        let i = position_of(self.entries@, k);
                        let oi = if i < at { i } else { i + 1 };
                        assert(gone[i] == before.entries@[oi]);
                        before.entry_in_view(oi);
                        self.entry_in_view(i);
                    }
                    assert(self@ =~= after);
                }
                Some(entry)
            },
            None => {
                proof {
                    assert(self@ =~= before@.remove(place));
                }
                None
            },
        }
    }

    /// Adds a changelog line to the update of `path`, which then asks for the
    /// stronger bump of the two. A path without an update gets one.
    pub fn log_change(&mut self, path: &str, update_type: UpdateType, note: &str)
        requires
            old(self).well_formed(),
        ensures
            final(self).well_formed(),
            final(self)@ == with_change(
                old(self)@,
                path@,
                LogView { update_type, note: note@ },
            ),
    {
        let ghost before = *self;
        let ghost log = LogView { update_type, note: note@ };
        match self.find(path) {
            Some(at) => {
                let kept: String = self.entries[at].path.clone();
                let strongest: UpdateType = self.entries[at].update_type.strongest(update_type);
                let mut logs: Vec<ChangePackResultLog> = copy_logs(&self.entries[at].logs);
                let ghost old_logs = logs@;
                logs.push(ChangePackResultLog::new(update_type, note.to_string()));
                proof {
                    assert(log_views(logs@) =~= log_views(old_logs).push(log));
                }
                self.entries.set(at, UpdateEntry { path: kept, update_type: strongest, logs });
                proof {
                    let place = paths::components(path@);
                    assert forall|i: int| 0 <= i < self.entries@.len() implies (
                    #[trigger] self.entries@[i]).path@ == before.entries@[i].path@ by {}
                    assert(self.well_formed());
                    let after = with_change(before@, path@, log);
                    assert forall|k: Seq<Seq<char>>| self@.contains_key(k) == after.contains_key(
                        k,
                    ) by {
                        if self@.contains_key(k) {
                            let i = position_of(self.entries@, k);
                            assert(before.entries@[i].path@ == self.entries@[i].path@);
                        }
                        if before@.contains_key(k) {
                            let i = position_of(before.entries@, k);
                            assert(before.entries@[i].path@ == self.entries@[i].path@);
                        }
                    }
                    assert forall|k: Seq<Seq<char>>| self@.contains_key(k) implies self@[k]
                        == after[k] by {
                        let i = position_of(self.entries@, k);
                        self.entry_in_view(i);
                        before.entry_in_view(i);
                        before.entry_in_view(at as int);
                        if i != at {
                            assert(self.entries@[i] == before.entries@[i]);
                        }
                    }
                    assert(self@ =~= after);
                }
            },
            None => {
                let mut logs: Vec<ChangePackResultLog> = Vec::new();
                logs.push(ChangePackResultLog::new(update_type, note.to_string()));
                proof {
                    assert(log_views(logs@) =~= seq![log]);
                }
                self.insert_new(path.to_string(), update_type, logs);
            },
        }
    }
}

/// The updates with one more changelog line for `path`.
pub open spec fn with_change(
    updates: Map<Seq<Seq<char>>, EntryView>,
    path: Seq<char>,
    log: LogView,
) -> Map<Seq<Seq<char>>, EntryView> {
    let place = paths::components(path);
    if updates.contains_key(place) {
        let entry = updates[place];
        updates.insert(
            place,
            EntryView {
                path: entry.path,
                update_type: entry.update_type.stronger(log.update_type),
                logs: entry.logs.push(log),
            },
        )
    } else {
        updates.insert(
            place,
            EntryView { path, update_type: log.update_type, logs: seq![log] },
        )
    }
}

} // verus!
