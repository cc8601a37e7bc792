//! Sorting by lists of texts.

use crate::paths;
use crate::text;
use vstd::prelude::*;
use vstd::string::*;

verus! {

/// Lexicographic order of two lists of texts: the first difference decides,
/// and a list comes before every longer list that starts with it.
pub open spec fn list_lt(left: Seq<Seq<char>>, right: Seq<Seq<char>>) -> bool
    decreases left.len(),
{
    if right.len() == 0 {
        false
    } else if left.len() == 0 {
        true
    } else if left[0] != right[0] {
        text::text_lt(left[0], right[0])
    } else {
        list_lt(left.drop_first(), right.drop_first())
    }
}

/// The order of lists is transitive.
pub proof fn list_lt_transitive(a: Seq<Seq<char>>, b: Seq<Seq<char>>, c: Seq<Seq<char>>)
    requires
        list_lt(a, b),
        list_lt(b, c),
    ensures
        list_lt(a, c),
    decreases a.len(),
{
    if a.len() > 0 {
        text::text_lt_total(a[0], b[0]);
        text::text_lt_total(b[0], c[0]);
        text::text_lt_total(a[0], c[0]);
        if a[0] == b[0] && b[0] == c[0] {
            list_lt_transitive(a.drop_first(), b.drop_first(), c.drop_first());
        } else if a[0] != b[0] && b[0] != c[0] {
            text::text_lt_transitive(a[0], b[0], c[0]);
        }
    }
}

/// Of two different lists exactly one comes first.
pub proof fn list_lt_total(a: Seq<Seq<char>>, b: Seq<Seq<char>>)
    ensures
        list_lt(a, b) || list_lt(b, a) || a == b,
        !(list_lt(a, b) && list_lt(b, a)),
        !(list_lt(a, b) && a == b),
    decreases a.len(),
{
    if a.len() > 0 && b.len() > 0 {
        text::text_lt_total(a[0], b[0]);
        if a[0] == b[0] {
            list_lt_total(a.drop_first(), b.drop_first());
            assert(a =~= seq![a[0]] + a.drop_first());
            assert(b =~= seq![b[0]] + b.drop_first());
        }
    } else if a.len() == 0 && b.len() == 0 {
        assert(a =~= b);
    }
}

/// Whether the list `left` comes before the list `right`.
pub fn list_before(left: &Vec<String>, right: &Vec<String>) -> (before: bool)
    ensures
        before == list_lt(paths::views(left@), paths::views(right@)),
{
    let ghost a = paths::views(left@);
    let ghost b = paths::views(right@);
    let mut i: usize = 0;
    proof {
        assert(a.skip(0) =~= a);
        assert(b.skip(0) =~= b);
    }
    while i < left.len() && i < right.len()
        invariant
            i <= left.len(),
            i <= right.len(),
            a == paths::views(left@),
            b == paths::views(right@),
            list_lt(a, b) == list_lt(a.skip(i as int), b.skip(i as int)),
        decreases left.len() - i,
    {
        proof {
            assert(a.skip(i as int)[0] == left@[i as int]@);
            assert(b.skip(i as int)[0] == right@[i as int]@);
            assert(a.skip(i as int).drop_first() =~= a.skip(i as int + 1));
            assert(b.skip(i as int).drop_first() =~= b.skip(i as int + 1));
        }
        if !text::same_text(left[i].as_str(), right[i].as_str()) {
            return text::text_before(left[i].as_str(), right[i].as_str());
        }
        i = i + 1;
    }
    left.len() < right.len()
}

/// `order` lists every position below `n` once.
pub open spec fn is_permutation(order: Seq<usize>, n: nat) -> bool {
    &&& order.len() == n
    &&& forall|i: int| 0 <= i < order.len() ==> (#[trigger] order[i] as int) < n
    &&& forall|i: int, j: int|
        0 <= i < j < order.len() ==> #[trigger] order[i] != #[trigger] order[j]
    &&& forall|v: usize| (v as int) < n ==> #[trigger] order.contains(v)
}

/// The keys taken in `order` never step back.
pub open spec fn in_order(keys: Seq<Seq<Seq<char>>>, order: Seq<usize>) -> bool {
    forall|i: int, j: int|
        0 <= i < j < order.len() ==> !list_lt(
            keys[#[trigger] order[j] as int],
            keys[#[trigger] order[i] as int],
        )
}

/// The views of a list of lists of texts.
pub open spec fn key_views(keys: Seq<Vec<String>>) -> Seq<Seq<Seq<char>>> {
    keys.map_values(|k: Vec<String>| paths::views(k@))
}

/// The positions of `keys`, in the order of the keys.
pub fn sorted_positions(keys: &Vec<Vec<String>>) -> (order: Vec<usize>)
    ensures
        is_permutation(order@, keys@.len()),
        in_order(key_views(keys@), order@),
{
    let ghost kv = key_views(keys@);
    let mut order: Vec<usize> = Vec::new();
    let mut next: usize = 0;
    while next < keys.len()
        invariant
            next <= keys.len(),
            kv == key_views(keys@),
            is_permutation(order@, next as nat),
            in_order(kv, order@),
        decreases keys.len() - next,
    {
        let mut at: usize = order.len();
        while at > 0 && list_before(&keys[next], &keys[order[at - 1]])
            invariant
                at <= order.len(),
                next < keys.len(),
                kv == key_views(keys@),
                is_permutation(order@, next as nat),
                in_order(kv, order@),
                forall|i: int|
                    at <= i < order.len() ==> list_lt(
                        kv[next as int],
                        kv[#[trigger] order@[i] as int],
                    ),
            decreases at,
        {
            proof {
                assert(kv[next as int] == paths::views(keys@[next as int]@));
                assert(kv[order@[at - 1] as int] == paths::views(keys@[order@[at - 1] as int]@));
            }
            at = at - 1;
        }
        let ghost before = order@;
        order.insert(at, next);
        proof {
            assert(order@ == before.insert(at as int, next));
            assert forall|v: usize| (v as int) < next + 1 implies #[trigger] order@.contains(v) by {
                if v == next {
                    assert(order@[at as int] == v);
                } else {
                    assert(before.contains(v));
                    let i = before.index_of(v);
                    assert(order@[if i < at { i } else { i + 1 }] == v);
                }
            }
            assert forall|i: int, j: int| 0 <= i < j < order@.len() implies !list_lt(
                kv[#[trigger] order@[j] as int],
                kv[#[trigger] order@[i] as int],
            ) by {
                let old_i = if i > at { i - 1 } else { i };
                let old_j = if j > at { j - 1 } else { j };
                if i == at {
                    list_lt_total(kv[next as int], kv[before[old_j] as int]);
                } else if j == at {
                    // Everything before the insertion point is at or below the
                    // entry just before it, which is not above the new key.
                    let edge = before[at - 1] as int;
                    assert(kv[next as int] == paths::views(keys@[next as int]@));
                    assert(kv[edge] == paths::views(keys@[edge]@));
                    assert(!list_lt(kv[next as int], kv[edge]));
                    if old_i < at - 1 {
                        let low = before[old_i] as int;
                        assert(!list_lt(kv[edge], kv[low]));
                        if list_lt(kv[next as int], kv[low]) {
                            list_lt_total(kv[edge], kv[low]);
                            list_lt_total(kv[edge], kv[next as int]);
                            if kv[edge] != kv[low] {
                                list_lt_transitive(kv[next as int], kv[low], kv[edge]);
                            }
                        }
                    }
                } else {
                    assert(before[old_i] == order@[i]);
                    assert(before[old_j] == order@[j]);
                }
            }
        }
        next = next + 1;
    }
    order
}

/// Taking a list in a permuted order keeps its entries.
pub proof fn lemma_permuted_multiset<T>(list: Seq<T>, order: Seq<usize>, permuted: Seq<T>)
    requires
        list.len() <= usize::MAX,
        is_permutation(order, list.len()),
        permuted.len() == order.len(),
        forall|i: int| 0 <= i < order.len() ==> permuted[i] == list[#[trigger] order[i] as int],
    ensures
        permuted.to_multiset() == list.to_multiset(),
    decreases list.len(),
{
    broadcast use vstd::seq_lib::group_to_multiset_ensures;

    if list.len() == 0 {
        assert(permuted =~= list);
    } else {
        // Take the last entry of the list out of both sides.
        let last = (list.len() - 1) as usize;
        assert(order.contains(last));
        let at = order.index_of(last);
        let order2 = order.remove(at);
        let permuted2 = permuted.remove(at);
        let list2 = list.drop_last();
        assert forall|i: int| 0 <= i < order2.len() implies (#[trigger] order2[i] as int)
            < list2.len() by {
            let o = if i < at { i } else { i + 1 };
            assert(order2[i] == order[o]);
            assert(order[o] != order[at]);
        }
        assert forall|i: int, j: int| 0 <= i < j < order2.len() implies #[trigger] order2[i]
            != #[trigger] order2[j] by {
            let oi = if i < at { i } else { i + 1 };
            let oj = if j < at { j } else { j + 1 };
            assert(order2[i] == order[oi]);
            assert(order2[j] == order[oj]);
        }
        assert forall|v: usize| (v as int) < list2.len() implies #[trigger] order2.contains(v) by {
            assert(order.contains(v));
            let k = order.index_of(v);
            assert(order2[if k < at { k } else { k - 1 }] == v);
        }
        assert forall|i: int| 0 <= i < order2.len() implies permuted2[i] == list2[
        #[trigger] order2[i] as int] by {
            let o = if i < at { i } else { i + 1 };
            assert(order2[i] == order[o]);
            assert(permuted2[i] == permuted[o]);
        }
        lemma_permuted_multiset(list2, order2, permuted2);
        assert(list =~= list2.push(list.last()));
        assert(permuted[at] == list.last());
        assert(permuted.to_multiset() =~= permuted2.to_multiset().insert(list.last()));
        assert(list.to_multiset() =~= list2.to_multiset().insert(list.last()));
    }
}

} // verus!
