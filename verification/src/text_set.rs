//! Sets of texts, kept as lists without repetition.

use crate::text::same_text;
use vstd::prelude::*;
use vstd::string::*;

verus! {

/// The texts in a list, as a set.
pub open spec fn text_set(list: Seq<String>) -> Set<Seq<char>> {
    Set::new(|t: Seq<char>| exists|i: int| 0 <= i < list.len() && (#[trigger] list[i])@ == t)
}

/// No text is listed twice.
pub open spec fn all_different(list: Seq<String>) -> bool {
    forall|i: int, j: int| 0 <= i < j < list.len() ==> (#[trigger] list[i])@ != (#[trigger] list[j])@
}

/// The text of an optional string.
pub open spec fn optional_view(text: Option<String>) -> Option<Seq<char>> {
    match text {
        Some(t) => Some(t@),
        None => None,
    }
}

/// The list position of `text`.
pub fn text_position(list: &Vec<String>, text: &str) -> (found: Option<usize>)
    ensures
        match found {
            Some(i) => i < list.len() && list@[i as int]@ == text@,
            None => !text_set(list@).contains(text@),
        },
{
    let mut i: usize = 0;
    while i < list.len()
        invariant
            i <= list.len(),
            forall|k: int| 0 <= k < i ==> (#[trigger] list@[k])@ != text@,
        decreases list.len() - i,
    {
        if same_text(list[i].as_str(), text) {
            return Some(i);
        }
        i = i + 1;
    }
    None
}

/// Whether `text` is listed.
pub fn holds_text(list: &Vec<String>, text: &str) -> (held: bool)
    ensures
        held == text_set(list@).contains(text@),
{
    match text_position(list, text) {
        Some(_) => true,
        None => false,
    }
}

/// One more entry of a list adds one text to the set.
pub proof fn text_set_take(list: Seq<String>, n: int)
    requires
        0 <= n < list.len(),
    ensures
        text_set(list.take(n + 1)) == text_set(list.take(n)).insert(list[n]@),
{
    let short = list.take(n);
    let long = list.take(n + 1);
    assert forall|t: Seq<char>| text_set(long).contains(t) == text_set(short).insert(
        list[n]@,
    ).contains(t) by {
        if text_set(long).contains(t) {
            let k = choose|k: int| 0 <= k < long.len() && (#[trigger] long[k])@ == t;
            if k < n {
                assert(short[k]@ == t);
            }
        }
        if text_set(short).contains(t) {
            let k = choose|k: int| 0 <= k < short.len() && (#[trigger] short[k])@ == t;
            assert(long[k]@ == t);
        }
        assert(long[n]@ == list[n]@);
    }
    assert(text_set(long) =~= text_set(short).insert(list[n]@));
}

/// Adds `text` unless it is already listed.
pub fn insert_text(list: &mut Vec<String>, text: &str)
    requires
        all_different(old(list)@),
    ensures
        all_different(final(list)@),
        text_set(final(list)@) == text_set(old(list)@).insert(text@),
        text_set(old(list)@).contains(text@) ==> final(list)@ == old(list)@,
{
    let ghost before = list@;
    if holds_text(list, text) {
        proof {
            assert(text_set(list@) =~= text_set(before).insert(text@));
        }
        return ;
    }
    list.push(text.to_string());
    proof {
        assert forall|i: int, j: int| 0 <= i < j < list@.len() implies (#[trigger] list@[i])@ != (
        #[trigger] list@[j])@ by {
            assert(list@[i] == before[i]);
            if j < before.len() {
                assert(list@[j] == before[j]);
            } else {
                assert(text_set(before).contains(before[i]@));
            }
        }
        assert forall|t: Seq<char>| text_set(list@).contains(t) == text_set(before).insert(
            text@,
        ).contains(t) by {
            if text_set(list@).contains(t) {
                let i = choose|i: int| 0 <= i < list@.len() && (#[trigger] list@[i])@ == t;
                if i < before.len() {
                    assert(before[i]@ == t);
                }
            }
            if text_set(before).contains(t) {
                let i = choose|i: int| 0 <= i < before.len() && (#[trigger] before[i])@ == t;
                assert(list@[i]@ == t);
            }
            if t == text@ {
                assert(list@[before.len() as int]@ == t);
            }
        }
        assert(text_set(list@) =~= text_set(before).insert(text@));
    }
}

/// Adds each of `more` that is not already listed.
pub fn insert_texts(list: &mut Vec<String>, more: &Vec<String>)
    requires
        all_different(old(list)@),
    ensures
        all_different(final(list)@),
        text_set(final(list)@) == text_set(old(list)@).union(text_set(more@)),
{
    let ghost before = text_set(list@);
    let mut i: usize = 0;
    proof {
        assert(text_set(more@.take(0)) =~= Set::empty());
        assert(before.union(Set::empty()) =~= before);
    }
    while i < more.len()
        invariant
            i <= more@.len(),
            all_different(list@),
            text_set(list@) == before.union(text_set(more@.take(i as int))),
        decreases more@.len() - i,
    {
        insert_text(list, more[i].as_str());
        proof {
            text_set_take(more@, i as int);
            assert(text_set(list@) =~= before.union(text_set(more@.take(i as int + 1))));
        }
        i = i + 1;
    }
    proof {
        assert(more@.take(i as int) =~= more@);
    }
}

} // verus!
