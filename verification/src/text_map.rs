//! Maps keyed by text.

use crate::text::same_text;
use vstd::prelude::*;
use vstd::string::*;

verus! {

/// One entry of a [`TextMap`].
#[derive(Debug)]
pub struct TextEntry {
    pub key: String,
    pub value: String,
}

/// A map from texts to values, at most one for each text.
#[derive(Debug)]
pub struct TextMap {
    pub entries: Vec<TextEntry>,
}

/// The position of the entry for `key`.
pub open spec fn key_position(entries: Seq<TextEntry>, key: Seq<char>) -> int {
    choose|i: int|
        0 <= i < entries.len() && (#[trigger] entries[i]).key@ == key
}

/// Whether there is an entry for `key`.
pub open spec fn has_key(entries: Seq<TextEntry>, key: Seq<char>) -> bool {
    exists|i: int|
        0 <= i < entries.len() && (#[trigger] entries[i]).key@ == key
}

impl View for TextMap {
    type V = Map<Seq<char>, Seq<char>>;

    /// Values by their key.
    open spec fn view(&self) -> Map<Seq<char>, Seq<char>> {
        Map::new(
            |key: Seq<char>| has_key(self.entries@, key),
            |key: Seq<char>| self.entries@[key_position(self.entries@, key)].value@,
        )
    }
}

impl TextMap {
    /// No two entries are for the same key.
    pub open spec fn well_formed(&self) -> bool {
        forall|i: int, j: int|
            0 <= i < j < self.entries@.len() ==> (#[trigger] self.entries@[i]).key@ != (
            #[trigger] self.entries@[j]).key@
    }

    /// Each value is what the view holds for its key.
    pub proof fn entry_in_view(&self, i: int)
        requires
            self.well_formed(),
            0 <= i < self.entries@.len(),
        ensures
            self@.contains_key(self.entries@[i].key@),
            self@[self.entries@[i].key@] == self.entries@[i].value@,
    {
        let key = self.entries@[i].key@;
        let j = key_position(self.entries@, key);
        assert(0 <= j < self.entries@.len() && self.entries@[j].key@ == key);
        assert(i == j);
    }

    /// Each key of the view has an entry.
    pub proof fn view_has_entry(&self, key: Seq<char>) -> (i: int)
        requires
            self.well_formed(),
            self@.contains_key(key),
        ensures
            0 <= i < self.entries@.len(),
            self.entries@[i].key@ == key,
            self@[key] == self.entries@[i].value@,
    {
        key_position(self.entries@, key)
    }

    /// An empty map.
    pub fn new() -> (map: Self)
        ensures
            map.well_formed(),
            map@ == Map::<Seq<char>, Seq<char>>::empty(),
    {
        let map = TextMap { entries: Vec::new() };
        proof {
            assert(map@ =~= Map::<Seq<char>, Seq<char>>::empty());
        }
        map
    }

    /// The position of the entry for `key`.
    pub fn find(&self, key: &str) -> (found: Option<usize>)
        requires
            self.well_formed(),
        ensures
            match found {
                Some(i) => i < self.entries@.len() && self.entries@[i as int].key@
                    == key@ && self@.contains_key(key@)
                    && self@[key@] == self.entries@[i as int].value@,
                None => !self@.contains_key(key@),
            },
    {
        let mut i: usize = 0;
        while i < self.entries.len()
            invariant
                i <= self.entries.len(),
                self.well_formed(),
                forall|k: int|
                    0 <= k < i ==> (#[trigger] self.entries@[k]).key@
                        != key@,
            decreases self.entries.len() - i,
        {
            if same_text(self.entries[i].key.as_str(), key) {
                proof {
                    self.entry_in_view(i as int);
                }
                return Some(i);
            }
            i = i + 1;
        }
        None
    }

    /// The value for `key`.
    pub fn get(&self, key: &str) -> (value: Option<&String>)
        requires
            self.well_formed(),
        ensures
            match value {
                Some(v) => self@.contains_key(key@) && self@[key@] == v@,
                None => !self@.contains_key(key@),
            },
    {
        match self.find(key) {
            Some(i) => Some(&self.entries[i].value),
            None => None,
        }
    }

    /// Removes the value for `key`.
    pub fn remove(&mut self, key: &str) -> (value: Option<String>)
        requires
            old(self).well_formed(),
        ensures
            final(self).well_formed(),
            final(self)@ == old(self)@.remove(key@),
            match value {
                Some(v) => old(self)@.contains_key(key@)
                    && old(self)@[key@] == v@,
                None => !old(self)@.contains_key(key@),
            },
    {
        let ghost before = *self;
        let ghost wanted = key@;
        match self.find(key) {
            Some(at) => {
                let entry: TextEntry = self.entries.remove(at);
                proof {
                    let gone = before.entries@.remove(at as int);
                    assert(self.entries@ == gone);
                    assert forall|i: int| 0 <= i < gone.len() implies #[trigger] gone[i]
                        == before.entries@[if i < at {
                        i
                    } else {
                        i + 1
                    }] by {}
                    assert(self.well_formed()) by {
                        assert forall|i: int, j: int| 0 <= i < j < gone.len() implies (
                        #[trigger] gone[i]).key@ != (#[trigger] gone[j]).key@ by {
                            let oi = if i < at { i } else { i + 1 };
                            let oj = if j < at { j } else { j + 1 };
                            assert(gone[i] == before.entries@[oi]);
                            assert(gone[j] == before.entries@[oj]);
                        }
                    }
                    let after = before@.remove(wanted);
                    assert forall|k: Seq<char>| self@.contains_key(k) == after.contains_key(
                        k,
                    ) by {
                        if self@.contains_key(k) {
                            let i = self.view_has_entry(k);
                            let oi = if i < at { i } else { i + 1 };
                            assert(gone[i] == before.entries@[oi]);
                            before.entry_in_view(oi);
                            assert(oi != at);
                            if k == wanted {
                                assert(false);
                            }
                        }
                        if after.contains_key(k) {
                            let oi = before.view_has_entry(k);
                            assert(oi != at);
                            let i = if oi < at { oi } else { oi - 1 };
                            assert(gone[i] == before.entries@[oi]);
                        }
                    }
                    assert forall|k: Seq<char>| self@.contains_key(k) implies self@[k]
                        == after[k] by {
                        let i = self.view_has_entry(k);
                        let oi = if i < at { i } else { i + 1 };
                        assert(gone[i] == before.entries@[oi]);
                        before.entry_in_view(oi);
                    }
                    assert(self@ =~= after);
                }
                Some(entry.value)
            },
            None => {
                proof {
                    assert(self@ =~= before@.remove(wanted));
                }
                None
            },
        }
    }

    /// Sets the value for `key`, in place of the one it had.
    pub fn insert(&mut self, key: String, value: String)
        requires
            old(self).well_formed(),
        ensures
            final(self).well_formed(),
            final(self)@ == old(self)@.insert(key@, value@),
    {
        let ghost wanted = key@;
        let ghost original = self@;
        let gone: Option<String> = self.remove(key.as_str());
        let ghost before = *self;
        self.entries.push(TextEntry { key, value });
        proof {
            let last = self.entries@.len() - 1;
            assert forall|i: int, j: int| 0 <= i < j < self.entries@.len() implies (#[trigger] self.entries@[i]).key@ != (
            #[trigger] self.entries@[j]).key@ by {
                assert(self.entries@[i] == before.entries@[i]);
                if j == last {
                    before.entry_in_view(i);
                } else {
                    assert(self.entries@[j] == before.entries@[j]);
                }
            }
            let after = original.insert(wanted, value@);
            assert forall|k: Seq<char>| self@.contains_key(k) == after.contains_key(k) by {
                if before@.contains_key(k) {
                    let i = before.view_has_entry(k);
                    assert(self.entries@[i] == before.entries@[i]);
                }
                if k == wanted {
                    assert(self.entries@[last].key@ == key@);
                }
                if self@.contains_key(k) && k != wanted {
                    let i = self.view_has_entry(k);
                    assert(i != last);
                    assert(before.entries@[i] == self.entries@[i]);
                    before.entry_in_view(i);
                }
            }
            assert forall|k: Seq<char>| self@.contains_key(k) implies self@[k] == after[k] by {
                let i = self.view_has_entry(k);
                self.entry_in_view(i);
                if i != last {
                    assert(before.entries@[i] == self.entries@[i]);
                    before.entry_in_view(i);
                } else {
                    assert(k == wanted);
                }
            }
            assert(self@ =~= after);
        }
    }
}

} // verus!
