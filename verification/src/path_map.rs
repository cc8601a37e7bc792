//! Maps keyed by path.

use crate::paths;
use vstd::prelude::*;
use vstd::string::*;

verus! {

/// One entry of a [`PathMap`].
#[derive(Debug)]
pub struct PathEntry<V> {
    pub path: String,
    pub value: V,
}

/// A map from paths to values, at most one for each path.
#[derive(Debug)]
pub struct PathMap<V> {
    pub entries: Vec<PathEntry<V>>,
}

/// The position of the entry for the path with the components `place`.
pub open spec fn place_position<V>(entries: Seq<PathEntry<V>>, place: Seq<Seq<char>>) -> int {
    choose|i: int|
        0 <= i < entries.len() && paths::components((#[trigger] entries[i]).path@) == place
}

/// Whether there is an entry for the path with the components `place`.
pub open spec fn has_place<V>(entries: Seq<PathEntry<V>>, place: Seq<Seq<char>>) -> bool {
    exists|i: int|
        0 <= i < entries.len() && paths::components((#[trigger] entries[i]).path@) == place
}

impl<V> View for PathMap<V> {
    type V = Map<Seq<Seq<char>>, V>;

    /// Values by the components of their path.
    open spec fn view(&self) -> Map<Seq<Seq<char>>, V> {
        Map::new(
            |place: Seq<Seq<char>>| has_place(self.entries@, place),
            |place: Seq<Seq<char>>| self.entries@[place_position(self.entries@, place)].value,
        )
    }
}

impl<V> PathMap<V> {
    /// No two entries are for the same path.
    pub open spec fn well_formed(&self) -> bool {
        forall|i: int, j: int|
            0 <= i < j < self.entries@.len() ==> paths::components(
                (#[trigger] self.entries@[i]).path@,
            ) != paths::components((#[trigger] self.entries@[j]).path@)
    }

    /// Each value is what the view holds for its path.
    pub proof fn entry_in_view(&self, i: int)
        requires
            self.well_formed(),
            0 <= i < self.entries@.len(),
        ensures
            self@.contains_key(paths::components(self.entries@[i].path@)),
            self@[paths::components(self.entries@[i].path@)] == self.entries@[i].value,
    {
        let place = paths::components(self.entries@[i].path@);
        let j = place_position(self.entries@, place);
        assert(0 <= j < self.entries@.len() && paths::components(self.entries@[j].path@) == place);
        assert(i == j);
    }

    /// Each key of the view has an entry.
    pub proof fn view_has_entry(&self, place: Seq<Seq<char>>) -> (i: int)
        requires
            self.well_formed(),
            self@.contains_key(place),
        ensures
            0 <= i < self.entries@.len(),
            paths::components(self.entries@[i].path@) == place,
            self@[place] == self.entries@[i].value,
    {
        place_position(self.entries@, place)
    }

    /// An empty map.
    pub fn new() -> (map: Self)
        ensures
            map.well_formed(),
            map@ == Map::<Seq<Seq<char>>, V>::empty(),
    {
        let map = PathMap { entries: Vec::new() };
        proof {
            assert(map@ =~= Map::<Seq<Seq<char>>, V>::empty());
        }
        map
    }

    /// The position of the entry for `path`.
    pub fn find(&self, path: &str) -> (found: Option<usize>)
        requires
            self.well_formed(),
        ensures
            match found {
                Some(i) => i < self.entries@.len() && paths::components(self.entries@[i as int].path@)
                    == paths::components(path@) && self@.contains_key(paths::components(path@))
                    && self@[paths::components(path@)] == self.entries@[i as int].value,
                None => !self@.contains_key(paths::components(path@)),
            },
    {
        let mut i: usize = 0;
        while i < self.entries.len()
            invariant
                i <= self.entries.len(),
                self.well_formed(),
                forall|k: int|
                    0 <= k < i ==> paths::components((#[trigger] self.entries@[k]).path@)
                        != paths::components(path@),
            decreases self.entries.len() - i,
        {
            if paths::same_path(self.entries[i].path.as_str(), path) {
                proof {
                    self.entry_in_view(i as int);
                }
                return Some(i);
            }
            i = i + 1;
        }
        None
    }

    /// The value for `path`.
    pub fn get(&self, path: &str) -> (value: Option<&V>)
        requires
            self.well_formed(),
        ensures
            match value {
                Some(v) => self@.contains_key(paths::components(path@)) && self@[paths::components(
                    path@,
                )] == *v,
                None => !self@.contains_key(paths::components(path@)),
            },
    {
        match self.find(path) {
            Some(i) => Some(&self.entries[i].value),
            None => None,
        }
    }

    /// Whether there is a value for `path`.
    pub fn contains(&self, path: &str) -> (held: bool)
        requires
            self.well_formed(),
        ensures
            held == self@.contains_key(paths::components(path@)),
    {
        match self.find(path) {
            Some(_) => true,
            None => false,
        }
    }

    /// Removes the value for `path`.
    pub fn remove(&mut self, path: &str) -> (value: Option<V>)
        requires
            old(self).well_formed(),
        ensures
            final(self).well_formed(),
            final(self)@ == old(self)@.remove(paths::components(path@)),
            match value {
                Some(v) => old(self)@.contains_key(paths::components(path@))
                    && old(self)@[paths::components(path@)] == v,
                None => !old(self)@.contains_key(paths::components(path@)),
            },
    {
        let ghost before = *self;
        let ghost place = paths::components(path@);
        match self.find(path) {
            Some(at) => {
                let entry: PathEntry<V> = self.entries.remove(at);
                proof {
                    let gone = before.entries@.remove(at as int);
                    assert(self.entries@ == gone);
                    assert forall|i: int| 0 <= i < gone.len() implies #[trigger] gone[i]
                        == before.entries@[if i < at {
                        i
                    } else {
                        i + 1
                    }] by {}
                    assert(self.well_formed()) by {
                        assert forall|i: int, j: int| 0 <= i < j < gone.len() implies paths::components(
                            (#[trigger] gone[i]).path@,
                        ) != paths::components((#[trigger] gone[j]).path@) by {
                            let oi = if i < at { i } else { i + 1 };
                            let oj = if j < at { j } else { j + 1 };
                            assert(gone[i] == before.entries@[oi]);
                            assert(gone[j] == before.entries@[oj]);
                        }
                    }
                    let after = before@.remove(place);
                    assert forall|k: Seq<Seq<char>>| self@.contains_key(k) == after.contains_key(
                        k,
                    ) by {
                        if self@.contains_key(k) {
                            let i = self.view_has_entry(k);
                            let oi = if i < at { i } else { i + 1 };
                            assert(gone[i] == before.entries@[oi]);
                            before.entry_in_view(oi);
                            assert(oi != at);
                            if k == place {
                                assert(false);
                            }
                        }
                        if after.contains_key(k) {
                            let oi = before.view_has_entry(k);
                            assert(oi != at);
                            let i = if oi < at { oi } else { oi - 1 };
                            assert(gone[i] == before.entries@[oi]);
                        }
                    }
                    assert forall|k: Seq<Seq<char>>| self@.contains_key(k) implies self@[k]
                        == after[k] by {
                        let i = self.view_has_entry(k);
                        let oi = if i < at { i } else { i + 1 };
                        assert(gone[i] == before.entries@[oi]);
                        before.entry_in_view(oi);
                    }
                    assert(self@ =~= after);
                }
                Some(entry.value)
            },
            None => {
                proof {
                    assert(self@ =~= before@.remove(place));
                }
                None
            },
        }
    }

    /// Sets the value for `path`, in place of the one it had.
    pub fn insert(&mut self, path: String, value: V)
        requires
            old(self).well_formed(),
        ensures
            final(self).well_formed(),
            final(self)@ == old(self)@.insert(paths::components(path@), value),
    {
        let ghost place = paths::components(path@);
        let ghost original = self@;
        let gone: Option<V> = self.remove(path.as_str());
        let ghost before = *self;
        self.entries.push(PathEntry { path, value });
        proof {
            let last = self.entries@.len() - 1;
            assert forall|i: int, j: int| 0 <= i < j < self.entries@.len() implies paths::components(
                (#[trigger] self.entries@[i]).path@,
            ) != paths::components((#[trigger] self.entries@[j]).path@) by {
                assert(self.entries@[i] == before.entries@[i]);
                if j == last {
                    before.entry_in_view(i);
                } else {
                    assert(self.entries@[j] == before.entries@[j]);
                }
            }
            let after = original.insert(place, value);
            assert forall|k: Seq<Seq<char>>| self@.contains_key(k) == after.contains_key(k) by {
                if before@.contains_key(k) {
                    let i = before.view_has_entry(k);
                    assert(self.entries@[i] == before.entries@[i]);
                }
                if k == place {
                    assert(self.entries@[last].path@ == path@);
                }
                if self@.contains_key(k) && k != place {
                    let i = self.view_has_entry(k);
                    assert(i != last);
                    assert(before.entries@[i] == self.entries@[i]);
                    before.entry_in_view(i);
                }
            }
            assert forall|k: Seq<Seq<char>>| self@.contains_key(k) implies self@[k] == after[k] by {
                let i = self.view_has_entry(k);
                self.entry_in_view(i);
                if i != last {
                    assert(before.entries@[i] == self.entries@[i]);
                    before.entry_in_view(i);
                } else {
                    assert(k == place);
                }
            }
            assert(self@ =~= after);
        }
    }
}

/// A map with the paths of another one is well formed if that is, and holds its
/// own values for the same paths.
pub proof fn same_paths_in_view<V>(before: PathMap<V>, after: PathMap<V>)
    requires
        before.well_formed(),
        after.entries@.len() == before.entries@.len(),
        forall|i: int|
            0 <= i < before.entries@.len() ==> (#[trigger] after.entries@[i]).path
                == before.entries@[i].path,
    ensures
        after.well_formed(),
        after@.dom() == before@.dom(),
{
    assert forall|i: int, j: int| 0 <= i < j < after.entries@.len() implies paths::components(
        (#[trigger] after.entries@[i]).path@,
    ) != paths::components((#[trigger] after.entries@[j]).path@) by {
        assert(before.entries@[i].path == after.entries@[i].path);
        assert(before.entries@[j].path == after.entries@[j].path);
    }
    assert forall|k: Seq<Seq<char>>| after@.contains_key(k) == before@.contains_key(k) by {
        if after@.contains_key(k) {
            let i = after.view_has_entry(k);
            before.entry_in_view(i);
        }
        if before@.contains_key(k) {
            let i = before.view_has_entry(k);
            after.entry_in_view(i);
        }
    }
    assert(after@.dom() =~= before@.dom());
}

} // verus!
