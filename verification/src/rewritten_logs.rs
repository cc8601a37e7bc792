//! What a changepack log holds once its applied changes are spliced out.

use crate::applied_change_spans;
use crate::applied_change_spans::{MemberSpan, SpanFault};
use crate::paths;
use vstd::prelude::*;
use vstd::utf8::*;

verus! {

/// The bytes of the first text from `lo` to `hi` stand in the second, moved by
/// `d`.
pub open spec fn agree(b: Seq<u8>, b2: Seq<u8>, lo: int, hi: int, d: int) -> bool {
    &&& 0 <= lo <= hi <= b.len()
    &&& 0 <= lo + d
    &&& hi + d <= b2.len()
    &&& forall|x: int| lo <= x < hi ==> b2[x + d] == #[trigger] b[x]
}

proof fn lemma_space_moves(b: Seq<u8>, b2: Seq<u8>, at: int, hi: int, d: int)
    requires
        agree(b, b2, at, hi, d),
        applied_change_spans::after_space(b, at) < hi,
    ensures
        applied_change_spans::after_space(b2, at + d) == applied_change_spans::after_space(b, at)
            + d,
    decreases hi - at,
{
    applied_change_spans::after_space_bounds(b, at);
    assert(b2[at + d] == b[at]);
    if applied_change_spans::is_json_space(b[at]) {
        applied_change_spans::after_space_bounds(b, at + 1);
        lemma_space_moves(b, b2, at + 1, hi, d);
    }
}

proof fn lemma_quote_moves(b: Seq<u8>, b2: Seq<u8>, at: int, hi: int, d: int)
    requires
        agree(b, b2, at, hi, d),
        applied_change_spans::after_quote(b, at) matches Some(end) && end <= hi,
    ensures
        applied_change_spans::after_quote(b2, at + d) == Some(
            applied_change_spans::after_quote(b, at)->0 + d,
        ),
    decreases hi - at,
{
    applied_change_spans::after_quote_bounds(b, at);
    assert(b2[at + d] == b[at]);
    if b[at] == 0x5c {
        applied_change_spans::after_quote_bounds(b, at + 2);
        lemma_quote_moves(b, b2, at + 2, hi, d);
    } else if b[at] != 0x22 {
        applied_change_spans::after_quote_bounds(b, at + 1);
        lemma_quote_moves(b, b2, at + 1, hi, d);
    }
}

proof fn lemma_string_moves(b: Seq<u8>, b2: Seq<u8>, at: int, hi: int, d: int)
    requires
        agree(b, b2, at, hi, d),
        applied_change_spans::string_end(b, at) matches Ok(end) && end <= hi,
    ensures
        applied_change_spans::string_end(b2, at + d) == Ok::<int, SpanFault>(
            applied_change_spans::string_end(b, at)->Ok_0 + d,
        ),
{
    applied_change_spans::after_quote_bounds(b, at + 1);
    assert(b2[at + d] == b[at]);
    lemma_quote_moves(b, b2, at + 1, hi, d);
}

proof fn lemma_literal_moves(b: Seq<u8>, b2: Seq<u8>, at: int, hi: int, d: int)
    requires
        agree(b, b2, at, hi, d),
        applied_change_spans::literal_end(b, at) <= hi,
        applied_change_spans::literal_end(b, at) == hi && hi + d < b2.len()
            ==> applied_change_spans::ends_literal(b2[hi + d]),
        applied_change_spans::literal_end(b, at) == hi || applied_change_spans::ends_literal(
            b[applied_change_spans::literal_end(b, at)],
        ),
    ensures
        applied_change_spans::literal_end(b2, at + d) == applied_change_spans::literal_end(b, at)
            + d,
    decreases hi - at,
{
    applied_change_spans::literal_end_bounds(b, at);
    if at < hi {
        assert(b2[at + d] == b[at]);
        if !applied_change_spans::ends_literal(b[at]) {
            applied_change_spans::literal_end_bounds(b, at + 1);
            lemma_literal_moves(b, b2, at + 1, hi, d);
        }
    }
}

proof fn lemma_container_moves(
    b: Seq<u8>,
    b2: Seq<u8>,
    at: int,
    closers: Seq<u8>,
    start: int,
    hi: int,
    d: int,
)
    requires
        agree(b, b2, at, hi, d),
        applied_change_spans::container_end(b, at, closers, start) matches Ok(end) && end <= hi,
    ensures
        applied_change_spans::container_end(b2, at + d, closers, start + d) == Ok::<
            int,
            SpanFault,
        >(applied_change_spans::container_end(b, at, closers, start)->Ok_0 + d),
    decreases hi - at,
{
    applied_change_spans::container_end_bounds(b, at, closers, start);
    assert(b2[at + d] == b[at]);
    if b[at] == 0x22 {
        let end = applied_change_spans::string_end(b, at)->Ok_0;
        applied_change_spans::after_quote_bounds(b, at + 1);
        applied_change_spans::container_end_bounds(b, end, closers, start);
        lemma_string_moves(b, b2, at, hi, d);
        lemma_container_moves(b, b2, end, closers, start, hi, d);
    } else if b[at] == 0x7b {
        applied_change_spans::container_end_bounds(b, at + 1, closers.push(0x7d), start);
        lemma_container_moves(b, b2, at + 1, closers.push(0x7d), start, hi, d);
    } else if b[at] == 0x5b {
        applied_change_spans::container_end_bounds(b, at + 1, closers.push(0x5d), start);
        lemma_container_moves(b, b2, at + 1, closers.push(0x5d), start, hi, d);
    } else if b[at] == 0x7d || b[at] == 0x5d {
        if closers.len() > 1 {
            applied_change_spans::container_end_bounds(b, at + 1, closers.drop_last(), start);
            lemma_container_moves(b, b2, at + 1, closers.drop_last(), start, hi, d);
        }
    } else {
        applied_change_spans::container_end_bounds(b, at + 1, closers, start);
        lemma_container_moves(b, b2, at + 1, closers, start, hi, d);
    }
}

/// A value ends where it did, if what follows it ends a literal.
proof fn lemma_value_moves(b: Seq<u8>, b2: Seq<u8>, at: int, hi: int, d: int)
    requires
        agree(b, b2, at, hi, d),
        at == applied_change_spans::after_space(b, at),
        at < hi,
        applied_change_spans::value_end(b, at) matches Ok(end) && end <= hi && (end < hi
            ==> applied_change_spans::ends_literal(b[end])) && (end == hi && hi + d < b2.len()
            ==> applied_change_spans::ends_literal(b2[hi + d])),
    ensures
        applied_change_spans::after_space(b2, at + d) == at + d,
        applied_change_spans::value_end(b2, at + d) == Ok::<int, SpanFault>(
            applied_change_spans::value_end(b, at)->Ok_0 + d,
        ),
{
    applied_change_spans::after_space_bounds(b, at);
    lemma_space_moves(b, b2, at, hi, d);
    assert(b2[at + d] == b[at]);
    if b[at] == 0x22 {
        lemma_string_moves(b, b2, at, hi, d);
    } else if b[at] == 0x7b {
        lemma_container_moves(b, b2, at + 1, seq![0x7du8], at, hi, d);
    } else if b[at] == 0x5b {
        lemma_container_moves(b, b2, at + 1, seq![0x5du8], at, hi, d);
    } else {
        lemma_literal_moves(b, b2, at, hi, d);
    }
}

/// A member without its comma stands at `at`.
pub open spec fn stands_at(b: Seq<u8>, at: int, m: MemberSpan) -> bool {
    let key_start = applied_change_spans::after_space(b, at);
    let key_end = applied_change_spans::string_end(b, key_start);
    let colon = applied_change_spans::after_space(b, key_end->Ok_0);
    &&& 0 <= at
    &&& !applied_change_spans::byte_is(b, key_start, 0x7d)
    &&& key_end is Ok
    &&& applied_change_spans::decoded_json_string(
        decode_utf8(b.subrange(key_start, key_end->Ok_0)),
    ) == Ok::<Seq<char>, Seq<char>>(m.key)
    &&& applied_change_spans::byte_is(b, colon, 0x3a)
    &&& m.prefix_start == at
    &&& m.value_start == applied_change_spans::after_space(b, colon + 1)
    &&& applied_change_spans::value_end(b, m.value_start) == Ok::<int, SpanFault>(m.value_end)
}

/// `m` with the comma that stands behind it, if one does.
pub open spec fn with_comma(b: Seq<u8>, m: MemberSpan) -> MemberSpan {
    let next = applied_change_spans::after_space(b, m.value_end);
    MemberSpan {
        comma: if applied_change_spans::byte_is(b, next, 0x2c) {
            Some(next)
        } else {
            None
        },
        ..m
    }
}

/// The members from `m` on.
pub open spec fn members_with(b: Seq<u8>, m: MemberSpan) -> Result<Seq<MemberSpan>, SpanFault> {
    let next = applied_change_spans::after_space(b, m.value_end);
    if applied_change_spans::byte_is(b, next, 0x2c) {
        applied_change_spans::behind(
            seq![with_comma(b, m)],
            applied_change_spans::members_from(b, next + 1),
        )
    } else if applied_change_spans::byte_is(b, next, 0x7d) {
        Ok(seq![with_comma(b, m)])
    } else {
        Err(SpanFault::ExpectedSeparator(next))
    }
}

proof fn lemma_first_member(b: Seq<u8>, at: int, m: MemberSpan)
    requires
        stands_at(b, at, m),
    ensures
        applied_change_spans::members_from(b, at) == members_with(b, m),
        at < m.value_start <= m.value_end <= applied_change_spans::after_space(b, m.value_end),
{
    applied_change_spans::member_moves_on(b, at);
}

proof fn lemma_has_first(b: Seq<u8>, at: int)
    requires
        0 <= at,
        applied_change_spans::members_from(b, at) is Ok,
        applied_change_spans::members_from(b, at)->Ok_0.len() > 0,
    ensures
        stands_at(b, at, applied_change_spans::members_from(b, at)->Ok_0[0]),
        with_comma(b, applied_change_spans::members_from(b, at)->Ok_0[0])
            == applied_change_spans::members_from(b, at)->Ok_0[0],
        members_with(b, applied_change_spans::members_from(b, at)->Ok_0[0])
            == applied_change_spans::members_from(b, at),
{
    let ms = applied_change_spans::members_from(b, at)->Ok_0;
    let key_start = applied_change_spans::after_space(b, at);
    let key_end = applied_change_spans::string_end(b, key_start)->Ok_0;
    let colon = applied_change_spans::after_space(b, key_end);
    let value_start = applied_change_spans::after_space(b, colon + 1);
    let end = applied_change_spans::value_end(b, value_start)->Ok_0;
    let next = applied_change_spans::after_space(b, end);
    if applied_change_spans::byte_is(b, next, 0x2c) {
        assert(ms =~= seq![ms[0]] + applied_change_spans::members_from(b, next + 1)->Ok_0);
    }
    lemma_first_member(b, at, ms[0]);
}

/// `m`, moved by `d`.
pub open spec fn moved(m: MemberSpan, d: int) -> MemberSpan {
    MemberSpan {
        prefix_start: m.prefix_start + d,
        key: m.key,
        value_start: m.value_start + d,
        value_end: m.value_end + d,
        comma: match m.comma {
            Some(comma) => Some(comma + d),
            None => None,
        },
    }
}

pub open spec fn moved_all(ms: Seq<MemberSpan>, d: int) -> Seq<MemberSpan> {
    ms.map_values(|m: MemberSpan| moved(m, d))
}

proof fn lemma_space_again(b: Seq<u8>, at: int)
    requires
        0 <= at,
    ensures
        applied_change_spans::after_space(b, applied_change_spans::after_space(b, at))
            == applied_change_spans::after_space(b, at),
        forall|x: int|
            at <= x < applied_change_spans::after_space(b, at)
                ==> applied_change_spans::is_json_space(#[trigger] b[x]),
    decreases b.len() - at,
{
    if at < b.len() && applied_change_spans::is_json_space(b[at]) {
        lemma_space_again(b, at + 1);
        let end = applied_change_spans::after_space(b, at + 1);
        assert forall|x: int| at <= x < end implies applied_change_spans::is_json_space(
            #[trigger] b[x],
        ) by {
            if x > at {
                assert(at + 1 <= x);
            }
        }
    }
}

proof fn lemma_key_moves(b: Seq<u8>, b2: Seq<u8>, at: int, hi: int, d: int, m: MemberSpan)
    requires
        stands_at(b, at, m),
        agree(b, b2, at, hi, d),
        m.value_start <= hi,
    ensures
        ({
            let key_start = applied_change_spans::after_space(b, at);
            let key_end = applied_change_spans::string_end(b, key_start)->Ok_0;
            let colon = applied_change_spans::after_space(b, key_end);
            &&& applied_change_spans::after_space(b2, at + d) == key_start + d
            &&& !applied_change_spans::byte_is(b2, key_start + d, 0x7d)
            &&& applied_change_spans::string_end(b2, key_start + d) == Ok::<int, SpanFault>(
                key_end + d,
            )
            &&& b2.subrange(key_start + d, key_end + d) == b.subrange(key_start, key_end)
            &&& applied_change_spans::after_space(b2, key_end + d) == colon + d
            &&& applied_change_spans::byte_is(b2, colon + d, 0x3a)
            &&& at <= colon < m.value_start
        }),
{
    applied_change_spans::member_moves_on(b, at);
    let key_start = applied_change_spans::after_space(b, at);
    let key_end = applied_change_spans::string_end(b, key_start)->Ok_0;
    let colon = applied_change_spans::after_space(b, key_end);
    lemma_space_moves(b, b2, at, hi, d);
    assert(b2[key_start + d] == b[key_start]);
    lemma_string_moves(b, b2, key_start, hi, d);
    lemma_space_moves(b, b2, key_end, hi, d);
    assert(b2[colon + d] == b[colon]);
    assert(b2.subrange(key_start + d, key_end + d) =~= b.subrange(key_start, key_end)) by {
        assert forall|i: int| 0 <= i < key_end - key_start implies b2.subrange(
            key_start + d,
            key_end + d,
        )[i] == b.subrange(key_start, key_end)[i] by {
            assert(b2[key_start + i + d] == b[key_start + i]);
        }
    }
}

proof fn lemma_member_moves(b: Seq<u8>, b2: Seq<u8>, at: int, hi: int, d: int, m: MemberSpan)
    requires
        stands_at(b, at, m),
        agree(b, b2, at, hi, d),
        m.value_start < hi,
        m.value_end <= hi,
        m.value_end < hi ==> applied_change_spans::ends_literal(b[m.value_end]),
        m.value_end == hi && hi + d < b2.len() ==> applied_change_spans::ends_literal(b2[hi + d]),
    ensures
        stands_at(b2, at + d, moved(m, d)),
{
    lemma_key_moves(b, b2, at, hi, d, m);
    applied_change_spans::member_moves_on(b, at);
    let key_start = applied_change_spans::after_space(b, at);
    let key_end = applied_change_spans::string_end(b, key_start)->Ok_0;
    let colon = applied_change_spans::after_space(b, key_end);
    lemma_space_again(b, colon + 1);
    lemma_space_moves(b, b2, colon + 1, hi, d);
    lemma_value_moves(b, b2, m.value_start, hi, d);
}

/// What stands behind the value of a member that was scanned: whitespace, then
/// the comma or the closing brace.
proof fn lemma_behind_value(b: Seq<u8>, m: MemberSpan)
    requires
        0 <= m.value_end,
        members_with(b, m) is Ok,
    ensures
        m.value_end <= applied_change_spans::after_space(b, m.value_end) < b.len(),
        applied_change_spans::ends_literal(b[m.value_end]),
{
    lemma_space_again(b, m.value_end);
    applied_change_spans::after_space_bounds(b, m.value_end);
}

/// Members that stand in another text at the same distances are found there.
proof fn lemma_members_move(b: Seq<u8>, b2: Seq<u8>, at: int, d: int)
    requires
        applied_change_spans::members_from(b, at) is Ok,
        agree(b, b2, at, b.len() as int, d),
    ensures
        applied_change_spans::members_from(b2, at + d) == Ok::<Seq<MemberSpan>, SpanFault>(
            moved_all(applied_change_spans::members_from(b, at)->Ok_0, d),
        ),
    decreases b.len() - at,
{
    let ms = applied_change_spans::members_from(b, at)->Ok_0;
    let hi = b.len() as int;
    if ms.len() == 0 {
        lemma_no_members(b, at);
        applied_change_spans::after_space_bounds(b, at);
        let close = applied_change_spans::after_space(b, at);
        lemma_space_moves(b, b2, at, hi, d);
        assert(b2[close + d] == b[close]);
        assert(moved_all(ms, d) =~= Seq::<MemberSpan>::empty());
    } else {
        let m = ms[0];
        lemma_has_first(b, at);
        lemma_first_member(b, at, m);
        lemma_behind_value(b, m);
        let next = applied_change_spans::after_space(b, m.value_end);
        lemma_member_moves(b, b2, at, hi, d, m);
        lemma_first_member(b2, at + d, moved(m, d));
        lemma_space_moves(b, b2, m.value_end, hi, d);
        assert(b2[next + d] == b[next]);
        assert(with_comma(b2, moved(m, d)) == moved(m, d));
        if applied_change_spans::byte_is(b, next, 0x2c) {
            let rest = applied_change_spans::members_from(b, next + 1)->Ok_0;
            lemma_members_move(b, b2, next + 1, d);
            assert(moved_all(ms, d) =~= seq![moved(m, d)] + moved_all(rest, d));
        } else {
            assert(moved_all(ms, d) =~= seq![moved(m, d)]);
        }
    }
}

proof fn lemma_no_members(b: Seq<u8>, at: int)
    requires
        0 <= at,
        applied_change_spans::members_from(b, at) is Ok,
        applied_change_spans::members_from(b, at)->Ok_0.len() == 0,
    ensures
        applied_change_spans::byte_is(b, applied_change_spans::after_space(b, at), 0x7d),
{
    applied_change_spans::member_moves_on(b, at);
}

/// A member as its key and the bytes of its value.
pub open spec fn entry(b: Seq<u8>, m: MemberSpan) -> (Seq<char>, Seq<u8>) {
    (m.key, b.subrange(m.value_start, m.value_end))
}

/// The members of an object as keys and values, in order.
pub open spec fn entries(b: Seq<u8>, ms: Seq<MemberSpan>) -> Seq<(Seq<char>, Seq<u8>)> {
    ms.map_values(|m: MemberSpan| entry(b, m))
}

/// The entries from the `k`th on that are not selected.
pub open spec fn kept_entries(
    b: Seq<u8>,
    ms: Seq<MemberSpan>,
    selected: Seq<bool>,
    k: int,
) -> Seq<(Seq<char>, Seq<u8>)>
    decreases ms.len() - k,
{
    if k < 0 || k >= ms.len() {
        Seq::empty()
    } else if selected[k] {
        kept_entries(b, ms, selected, k + 1)
    } else {
        seq![entry(b, ms[k])] + kept_entries(b, ms, selected, k + 1)
    }
}

proof fn lemma_kept_past_run(
    b: Seq<u8>,
    ms: Seq<MemberSpan>,
    selected: Seq<bool>,
    k: int,
    to: int,
)
    requires
        0 <= k <= to <= ms.len(),
        forall|i: int| k <= i < to ==> selected[i],
    ensures
        kept_entries(b, ms, selected, k) == kept_entries(b, ms, selected, to),
    decreases to - k,
{
    if k < to {
        lemma_kept_past_run(b, ms, selected, k + 1, to);
    }
}

proof fn lemma_member_bounds(b: Seq<u8>, at: int)
    requires
        0 <= at,
        applied_change_spans::members_from(b, at) is Ok,
    ensures
        forall|i: int|
            0 <= i < applied_change_spans::members_from(b, at)->Ok_0.len() ==> at < (
            #[trigger] applied_change_spans::members_from(b, at)->Ok_0[i]).value_start
                <= applied_change_spans::members_from(b, at)->Ok_0[i].value_end < b.len(),
    decreases b.len() - at,
{
    let ms = applied_change_spans::members_from(b, at)->Ok_0;
    if ms.len() > 0 {
        let m = ms[0];
        lemma_has_first(b, at);
        lemma_first_member(b, at, m);
        lemma_behind_value(b, m);
        let next = applied_change_spans::after_space(b, m.value_end);
        if applied_change_spans::byte_is(b, next, 0x2c) {
            lemma_member_bounds(b, next + 1);
            let rest = applied_change_spans::members_from(b, next + 1)->Ok_0;
            assert(ms =~= seq![m] + rest);
            assert forall|i: int| 0 <= i < ms.len() implies at < (#[trigger] ms[i]).value_start
                <= ms[i].value_end < b.len() by {
                if i > 0 {
                    assert(ms[i] == rest[i - 1]);
                }
            }
        }
    }
}

proof fn lemma_entry_moves(b: Seq<u8>, b2: Seq<u8>, lo: int, hi: int, d: int, m: MemberSpan)
    requires
        agree(b, b2, lo, hi, d),
        lo <= m.value_start <= m.value_end <= hi,
    ensures
        entry(b2, moved(m, d)) == entry(b, m),
{
    assert(b2.subrange(m.value_start + d, m.value_end + d) =~= b.subrange(
        m.value_start,
        m.value_end,
    )) by {
        assert forall|i: int| 0 <= i < m.value_end - m.value_start implies b2.subrange(
            m.value_start + d,
            m.value_end + d,
        )[i] == b.subrange(m.value_start, m.value_end)[i] by {
            assert(b2[m.value_start + i + d] == b[m.value_start + i]);
        }
    }
}

proof fn lemma_entries_move(b: Seq<u8>, b2: Seq<u8>, at: int, d: int)
    requires
        applied_change_spans::members_from(b, at) is Ok,
        agree(b, b2, at, b.len() as int, d),
    ensures
        entries(b2, moved_all(applied_change_spans::members_from(b, at)->Ok_0, d)) == entries(
            b,
            applied_change_spans::members_from(b, at)->Ok_0,
        ),
{
    let ms = applied_change_spans::members_from(b, at)->Ok_0;
    lemma_member_bounds(b, at);
    assert(entries(b2, moved_all(ms, d)) =~= entries(b, ms)) by {
        assert forall|i: int| 0 <= i < ms.len() implies entries(b2, moved_all(ms, d))[i] == entries(
            b,
            ms,
        )[i] by {
            let m = ms[i];
            assert(at < m.value_start <= m.value_end < b.len());
            lemma_entry_moves(b, b2, at, b.len() as int, d, m);
        }
    }
}

/// The members of an object are what a scan from each of them on finds.
pub open spec fn scanned(b: Seq<u8>, ms: Seq<MemberSpan>) -> bool {
    &&& applied_change_spans::members_in_line(b, ms)
    &&& forall|i: int|
        0 <= i < ms.len() ==> applied_change_spans::members_from(
            b,
            (#[trigger] ms[i]).prefix_start,
        ) == Ok::<Seq<MemberSpan>, SpanFault>(ms.skip(i))
}

proof fn lemma_scanned(b: Seq<u8>, at: int)
    requires
        0 < at <= b.len(),
        b[at - 1] < 0x80,
        applied_change_spans::members_from(b, at) is Ok,
    ensures
        scanned(b, applied_change_spans::members_from(b, at)->Ok_0),
        applied_change_spans::members_from(b, at)->Ok_0.len() > 0
            ==> applied_change_spans::members_from(b, at)->Ok_0[0].prefix_start == at,
    decreases b.len() - at,
{
    let ms = applied_change_spans::members_from(b, at)->Ok_0;
    applied_change_spans::lemma_members_in_line(b, at);
    if ms.len() > 0 {
        let m = ms[0];
        lemma_has_first(b, at);
        lemma_first_member(b, at, m);
        lemma_behind_value(b, m);
        let next = applied_change_spans::after_space(b, m.value_end);
        assert(ms.skip(0) =~= ms);
        if applied_change_spans::byte_is(b, next, 0x2c) {
            lemma_scanned(b, next + 1);
            let rest = applied_change_spans::members_from(b, next + 1)->Ok_0;
            assert(ms =~= seq![m] + rest);
            assert forall|i: int| 0 <= i < ms.len() implies applied_change_spans::members_from(
                b,
                (#[trigger] ms[i]).prefix_start,
            ) == Ok::<Seq<MemberSpan>, SpanFault>(ms.skip(i)) by {
                if i > 0 {
                    assert(ms[i] == rest[i - 1]);
                    assert(ms.skip(i) =~= rest.skip(i - 1));
                }
            }
        }
    }
}

/// The closing brace behind the members `ms` of an object scanned from `at`.
pub open spec fn closing(b: Seq<u8>, at: int, ms: Seq<MemberSpan>) -> int {
    if ms.len() == 0 {
        applied_change_spans::after_space(b, at)
    } else {
        match ms.last().comma {
            Some(comma) => applied_change_spans::after_space(b, comma + 1),
            None => applied_change_spans::after_space(b, ms.last().value_end),
        }
    }
}

proof fn lemma_closing(b: Seq<u8>, at: int)
    requires
        0 <= at,
        applied_change_spans::members_from(b, at) is Ok,
    ensures
        at <= closing(b, at, applied_change_spans::members_from(b, at)->Ok_0),
        applied_change_spans::byte_is(
            b,
            closing(b, at, applied_change_spans::members_from(b, at)->Ok_0),
            0x7d,
        ),
    decreases b.len() - at,
{
    let ms = applied_change_spans::members_from(b, at)->Ok_0;
    if ms.len() == 0 {
        lemma_no_members(b, at);
        applied_change_spans::after_space_bounds(b, at);
    } else {
        let m = ms[0];
        lemma_has_first(b, at);
        lemma_first_member(b, at, m);
        lemma_behind_value(b, m);
        let next = applied_change_spans::after_space(b, m.value_end);
        if applied_change_spans::byte_is(b, next, 0x2c) {
            lemma_closing(b, next + 1);
            let rest = applied_change_spans::members_from(b, next + 1)->Ok_0;
            assert(ms =~= seq![m] + rest);
        }
    }
}

/// `b` from the `k`th member on, without the selected members.
pub open spec fn tail(b: Seq<u8>, ms: Seq<MemberSpan>, selected: Seq<bool>, k: int) -> Seq<u8> {
    applied_change_spans::spliced(
        b,
        applied_change_spans::removed_spans(ms, selected, k),
        ms[k].prefix_start,
    )
}

/// The `k`th member is not the first of a run at the end that takes the comma
/// before it along.
pub open spec fn starts_clean(selected: Seq<bool>, k: int) -> bool {
    k == 0 || !selected[k] || applied_change_spans::run_end(selected, k) < selected.len()
}

pub proof fn lemma_first_span(b: Seq<u8>, ms: Seq<MemberSpan>, selected: Seq<bool>, k: int)
    requires
        applied_change_spans::members_in_line(b, ms),
        selected.len() == ms.len(),
        0 <= k < ms.len(),
        starts_clean(selected, k),
    ensures
        applied_change_spans::removed_spans(ms, selected, k).len() > 0 ==> ms[k].prefix_start
            <= applied_change_spans::removed_spans(ms, selected, k)[0].0 <= b.len(),
    decreases ms.len() - k,
{
    if selected[k] {
        applied_change_spans::run_end_bounds(selected, k);
    } else if k + 1 < ms.len() {
        let next = ms[k + 1];
        assert(next.prefix_start == ms[k].comma->0 + 1);
        if starts_clean(selected, k + 1) {
            lemma_first_span(b, ms, selected, k + 1);
        } else {
            applied_change_spans::run_end_bounds(selected, k + 1);
        }
    } else {
        assert(applied_change_spans::removed_spans(ms, selected, k + 1).len() == 0);
    }
}

/// A kept member that another kept member follows stands in front of the rest.
pub proof fn lemma_tail_step(b: Seq<u8>, ms: Seq<MemberSpan>, selected: Seq<bool>, k: int)
    requires
        applied_change_spans::members_in_line(b, ms),
        selected.len() == ms.len(),
        0 <= k < ms.len() - 1,
        !selected[k],
        starts_clean(selected, k + 1),
    ensures
        tail(b, ms, selected, k) == b.subrange(ms[k].prefix_start, ms[k + 1].prefix_start) + tail(
            b,
            ms,
            selected,
            k + 1,
        ),
        0 < ms[k].prefix_start < ms[k + 1].prefix_start <= b.len(),
{
    let spans = applied_change_spans::removed_spans(ms, selected, k + 1);
    let here = ms[k].prefix_start;
    let there = ms[k + 1].prefix_start;
    assert(there == ms[k].comma->0 + 1);
    lemma_first_span(b, ms, selected, k + 1);
    if spans.len() == 0 {
        assert(b.subrange(here, b.len() as int) =~= b.subrange(here, there) + b.subrange(
            there,
            b.len() as int,
        ));
    } else {
        assert(b.subrange(here, spans[0].0) =~= b.subrange(here, there) + b.subrange(
            there,
            spans[0].0,
        ));
        assert(tail(b, ms, selected, k) =~= b.subrange(here, there) + tail(
            b,
            ms,
            selected,
            k + 1,
        ));
    }
}

/// A run at the end of the object takes the comma before it along.
pub proof fn lemma_tail_last(b: Seq<u8>, ms: Seq<MemberSpan>, selected: Seq<bool>, k: int)
    requires
        applied_change_spans::members_in_line(b, ms),
        selected.len() == ms.len(),
        0 <= k < ms.len() - 1,
        !selected[k],
        !starts_clean(selected, k + 1),
    ensures
        tail(b, ms, selected, k) == b.subrange(ms[k].prefix_start, ms[k].comma->0) + b.subrange(
            ms.last().value_end,
            b.len() as int,
        ),
{
    applied_change_spans::run_end_bounds(selected, k + 1);
    let spans = applied_change_spans::removed_spans(ms, selected, k + 1);
    let n = ms.len() as int;
    assert(applied_change_spans::removed_spans(ms, selected, n) =~= Seq::<(int, int)>::empty());
    assert(spans =~= seq![(ms[k].comma->0, ms.last().value_end)]);
    assert(spans.drop_first() =~= Seq::<(int, int)>::empty());
    assert(applied_change_spans::spliced(b, spans.drop_first(), ms.last().value_end) == b.subrange(
        ms.last().value_end,
        b.len() as int,
    ));
}

/// A run that a kept member follows leaves nothing behind.
pub proof fn lemma_tail_run(b: Seq<u8>, ms: Seq<MemberSpan>, selected: Seq<bool>, k: int)
    requires
        applied_change_spans::members_in_line(b, ms),
        selected.len() == ms.len(),
        0 <= k < ms.len(),
        selected[k],
    ensures
        ({
            let to = applied_change_spans::run_end(selected, k);
            &&& k < to
            &&& to < ms.len() ==> tail(b, ms, selected, k) == tail(b, ms, selected, to)
            &&& to == ms.len() && k == 0 ==> tail(b, ms, selected, k) == b.subrange(
                ms.last().value_end,
                b.len() as int,
            )
        }),
{
    applied_change_spans::run_end_bounds(selected, k);
    let to = applied_change_spans::run_end(selected, k);
    let spans = applied_change_spans::removed_spans(ms, selected, k);
    let rest = applied_change_spans::removed_spans(ms, selected, to);
    assert(spans.drop_first() =~= rest);
    if to < ms.len() {
        assert(ms[to - 1 + 1].prefix_start == ms[to - 1].comma->0 + 1);
        let here = ms[k].prefix_start;
        assert(b.subrange(here, here) + tail(b, ms, selected, to) =~= tail(b, ms, selected, to));
    } else if k == 0 {
        let here = ms[0].prefix_start;
        assert(rest =~= Seq::<(int, int)>::empty());
        assert(applied_change_spans::spliced(b, rest, ms.last().value_end) == b.subrange(
            ms.last().value_end,
            b.len() as int,
        ));
        assert(b.subrange(here, here) + b.subrange(ms.last().value_end, b.len() as int)
            =~= b.subrange(ms.last().value_end, b.len() as int));
    }
}

proof fn lemma_skip_spaces(b: Seq<u8>, from: int, to: int)
    requires
        0 <= from <= to <= b.len(),
        forall|x: int| from <= x < to ==> applied_change_spans::is_json_space(#[trigger] b[x]),
    ensures
        applied_change_spans::after_space(b, from) == applied_change_spans::after_space(b, to),
    decreases to - from,
{
    if from < to {
        assert(applied_change_spans::is_json_space(b[from]));
        lemma_skip_spaces(b, from + 1, to);
    }
}

proof fn lemma_closing_moves(b: Seq<u8>, b2: Seq<u8>, at: int, d: int)
    requires
        applied_change_spans::members_from(b, at) is Ok,
        agree(b, b2, at, b.len() as int, d),
    ensures
        closing(b2, at + d, moved_all(applied_change_spans::members_from(b, at)->Ok_0, d))
            == closing(b, at, applied_change_spans::members_from(b, at)->Ok_0) + d,
{
    let ms = applied_change_spans::members_from(b, at)->Ok_0;
    let hi = b.len() as int;
    lemma_closing(b, at);
    lemma_member_bounds(b, at);
    if ms.len() == 0 {
        lemma_space_moves(b, b2, at, hi, d);
    } else {
        let last = ms.last();
        assert(at < ms[ms.len() - 1].value_start);
        match last.comma {
            Some(comma) => {
                lemma_comma_place(b, at, ms.len() - 1);
                lemma_space_moves(b, b2, comma + 1, hi, d);
            },
            None => {
                lemma_space_moves(b, b2, last.value_end, hi, d);
            },
        }
    }
}

proof fn lemma_comma_place(b: Seq<u8>, at: int, i: int)
    requires
        0 <= at,
        applied_change_spans::members_from(b, at) is Ok,
        0 <= i < applied_change_spans::members_from(b, at)->Ok_0.len(),
    ensures
        ({
            let m = applied_change_spans::members_from(b, at)->Ok_0[i];
            m.comma matches Some(comma) ==> at < comma < b.len() && comma
                == applied_change_spans::after_space(b, m.value_end)
        }),
    decreases i,
{
    let ms = applied_change_spans::members_from(b, at)->Ok_0;
    let m = ms[0];
    lemma_has_first(b, at);
    lemma_first_member(b, at, m);
    lemma_behind_value(b, m);
    let next = applied_change_spans::after_space(b, m.value_end);
    if i > 0 {
        let rest = applied_change_spans::members_from(b, next + 1)->Ok_0;
        assert(ms =~= seq![m] + rest);
        lemma_comma_place(b, next + 1, i - 1);
        assert(ms[i] == rest[i - 1]);
    }
}

/// A member in whose place another separator follows.
proof fn lemma_new_separator(b: Seq<u8>, t: Seq<u8>, p: int, m: MemberSpan) -> (m2: MemberSpan)
    requires
        stands_at(b, p, m),
        ({
            let c = applied_change_spans::after_space(b, m.value_end);
            let x = applied_change_spans::after_space(t, c - p);
            &&& agree(b, t, p, c, -p)
            &&& 0 <= x < t.len()
            &&& t[x] == 0x2c || t[x] == 0x7d
        }),
    ensures
        stands_at(t, 0, m2),
        entry(t, m2) == entry(b, m),
        applied_change_spans::after_space(t, m2.value_end) == applied_change_spans::after_space(
            t,
            applied_change_spans::after_space(b, m.value_end) - p,
        ),
{
    let c = applied_change_spans::after_space(b, m.value_end);
    let x = applied_change_spans::after_space(t, c - p);
    lemma_first_member(b, p, m);
    lemma_space_again(b, m.value_end);
    lemma_space_again(t, c - p);
    applied_change_spans::after_space_bounds(t, c - p);
    if c - p < x {
        assert(applied_change_spans::is_json_space(t[c - p]));
    }
    assert(applied_change_spans::ends_literal(t[c - p]));
    assert forall|y: int| m.value_end - p <= y < c - p implies applied_change_spans::is_json_space(
        #[trigger] t[y],
    ) by {
        assert(t[y + p + -p] == b[y + p]);
    }
    lemma_skip_spaces(t, m.value_end - p, c - p);
    if m.value_start < m.value_end {
        if m.value_end < c {
            assert(applied_change_spans::is_json_space(b[m.value_end]));
        }
        lemma_member_moves(b, t, p, c, -p, m);
        lemma_entry_moves(b, t, p, c, -p, m);
        moved(m, -p)
    } else {
        lemma_empty_value(b, t, p, m);
        MemberSpan { prefix_start: 0, key: m.key, value_start: x, value_end: x, comma: None }
    }
}

proof fn lemma_empty_value(b: Seq<u8>, t: Seq<u8>, p: int, m: MemberSpan)
    requires
        stands_at(b, p, m),
        m.value_start == m.value_end,
        agree(b, t, p, applied_change_spans::after_space(b, m.value_end), -p),
        ({
            let x = applied_change_spans::after_space(
                t,
                applied_change_spans::after_space(b, m.value_end) - p,
            );
            &&& 0 <= x < t.len()
            &&& t[x] == 0x2c || t[x] == 0x7d
        }),
    ensures
        ({
            let x = applied_change_spans::after_space(
                t,
                applied_change_spans::after_space(b, m.value_end) - p,
            );
            let m2 = MemberSpan {
                prefix_start: 0,
                key: m.key,
                value_start: x,
                value_end: x,
                comma: None,
            };
            &&& stands_at(t, 0, m2)
            &&& entry(t, m2) == entry(b, m)
            &&& applied_change_spans::after_space(t, x) == x
        }),
{
    let c = applied_change_spans::after_space(b, m.value_end);
    let x = applied_change_spans::after_space(t, c - p);
    lemma_first_member(b, p, m);
    lemma_key_moves(b, t, p, c, -p, m);
    let key_start = applied_change_spans::after_space(b, p);
    let key_end = applied_change_spans::string_end(b, key_start)->Ok_0;
    let colon = applied_change_spans::after_space(b, key_end);
    lemma_space_again(b, colon + 1);
    lemma_space_again(t, c - p);
    assert(c == m.value_start);
    assert forall|y: int| colon + 1 - p <= y < c - p implies applied_change_spans::is_json_space(
        #[trigger] t[y],
    ) by {
        assert(t[y + p + -p] == b[y + p]);
    }
    lemma_skip_spaces(t, colon + 1 - p, c - p);
    assert(applied_change_spans::literal_end(t, x) == x);
    assert(t.subrange(x, x) =~= b.subrange(m.value_start, m.value_end));
}

/// What a scan found of the `i`th member.
proof fn lemma_scanned_member(b: Seq<u8>, ms: Seq<MemberSpan>, i: int)
    requires
        scanned(b, ms),
        0 <= i < ms.len(),
    ensures
        stands_at(b, ms[i].prefix_start, ms[i]),
        with_comma(b, ms[i]) == ms[i],
        0 < ms[i].prefix_start < ms[i].value_start <= ms[i].value_end
            <= applied_change_spans::after_space(b, ms[i].value_end) < b.len(),
        applied_change_spans::ends_literal(b[ms[i].value_end]),
        i + 1 < ms.len() ==> ms[i].comma == Some(
            applied_change_spans::after_space(b, ms[i].value_end),
        ) && ms[i + 1].prefix_start == applied_change_spans::after_space(b, ms[i].value_end) + 1,
{
    let m = ms[i];
    assert(ms.skip(i)[0] == m);
    lemma_has_first(b, m.prefix_start);
    lemma_first_member(b, m.prefix_start, m);
    lemma_behind_value(b, m);
    if i + 1 < ms.len() {
        assert(ms[i + 1].prefix_start == m.comma->0 + 1);
    }
}

/// What a scan found behind the last member: the closing brace, or a comma and
/// no further member.
proof fn lemma_scanned_last(b: Seq<u8>, ms: Seq<MemberSpan>)
    requires
        scanned(b, ms),
        ms.len() > 0,
    ensures
        ({
            let next = applied_change_spans::after_space(b, ms.last().value_end);
            ||| applied_change_spans::byte_is(b, next, 0x7d) && ms.last().comma is None
            ||| applied_change_spans::byte_is(b, next, 0x2c) && ms.last().comma == Some(next)
                && applied_change_spans::members_from(b, next + 1) == Ok::<
                Seq<MemberSpan>,
                SpanFault,
            >(Seq::empty())
        }),
{
    let last = ms.last();
    let n = ms.len() as int;
    assert(ms[n - 1] == last);
    assert(ms.skip(n - 1) =~= seq![last]);
    lemma_has_first(b, last.prefix_start);
    lemma_first_member(b, last.prefix_start, last);
    let next = applied_change_spans::after_space(b, last.value_end);
    if applied_change_spans::byte_is(b, next, 0x2c) {
        let rest = applied_change_spans::members_from(b, next + 1)->Ok_0;
        assert((seq![last] + rest).len() == 1);
        assert(rest =~= Seq::<MemberSpan>::empty());
    }
}

/// What is left of an object behind a kept member when all that follow it are
/// cut out.
proof fn lemma_last_kept(b: Seq<u8>, ms: Seq<MemberSpan>, k: int, t: Seq<u8>)
    requires
        scanned(b, ms),
        0 <= k < ms.len() - 1,
        agree(b, t, ms[k].prefix_start, ms[k].comma->0, -ms[k].prefix_start),
        agree(
            b,
            t,
            ms.last().value_end,
            b.len() as int,
            ms[k].comma->0 - ms[k].prefix_start - ms.last().value_end,
        ),
        t.len() == ms[k].comma->0 - ms[k].prefix_start - ms.last().value_end + b.len(),
    ensures
        applied_change_spans::members_from(t, 0) is Ok,
        entries(t, applied_change_spans::members_from(t, 0)->Ok_0) == seq![entry(b, ms[k])],
        closing(t, 0, applied_change_spans::members_from(t, 0)->Ok_0) == closing(b, 0, ms)
            + t.len() - b.len(),
{
    let m = ms[k];
    let last = ms.last();
    let n = ms.len() as int;
    let hi = b.len() as int;
    let p = m.prefix_start;
    let c = m.comma->0;
    let v = last.value_end;
    let d = c - p - v;
    lemma_scanned_member(b, ms, k);
    lemma_scanned_member(b, ms, n - 1);
    lemma_scanned_last(b, ms);
    let next = applied_change_spans::after_space(b, v);
    lemma_space_moves(b, t, v, hi, d);
    assert(t[next + d] == b[next]);
    let m2 = lemma_new_separator(b, t, p, m);
    lemma_one_member(b, t, next, d, m2);
    assert(entry(t, with_comma(t, m2)) == entry(b, m));
    assert(entries(t, seq![with_comma(t, m2)]) =~= seq![entry(b, m)]);
}

/// A member that the end of another object follows is the only one.
proof fn lemma_one_member(b: Seq<u8>, t: Seq<u8>, next: int, d: int, m2: MemberSpan)
    requires
        stands_at(t, 0, m2),
        applied_change_spans::after_space(t, m2.value_end) == next + d,
        agree(b, t, next, b.len() as int, d),
        applied_change_spans::byte_is(b, next, 0x7d) || applied_change_spans::byte_is(b, next, 0x2c)
            && applied_change_spans::members_from(b, next + 1) == Ok::<Seq<MemberSpan>, SpanFault>(
            Seq::empty(),
        ),
    ensures
        applied_change_spans::members_from(t, 0) == Ok::<Seq<MemberSpan>, SpanFault>(
            seq![with_comma(t, m2)],
        ),
        closing(t, 0, seq![with_comma(t, m2)]) == d + (if applied_change_spans::byte_is(
            b,
            next,
            0x7d,
        ) {
            next
        } else {
            applied_change_spans::after_space(b, next + 1)
        }),
{
    let done = with_comma(t, m2);
    lemma_first_member(t, 0, m2);
    assert(t[next + d] == b[next]);
    if applied_change_spans::byte_is(b, next, 0x2c) {
        let none = Seq::<MemberSpan>::empty();
        lemma_members_move(b, t, next + 1, d);
        lemma_closing_moves(b, t, next + 1, d);
        assert(moved_all(none, d) =~= none);
        assert(seq![done] + none =~= seq![done]);
    }
    assert(seq![done].last() == done);
}

proof fn lemma_joined(b: Seq<u8>, from: int, to: int, rest: Seq<u8>, t: Seq<u8>)
    requires
        0 <= from <= to <= b.len(),
        t == b.subrange(from, to) + rest,
    ensures
        agree(b, t, from, to, -from),
        agree(rest, t, 0, rest.len() as int, to - from),
        t.len() == to - from + rest.len(),
{
    assert forall|x: int| from <= x < to implies t[x + -from] == #[trigger] b[x] by {
        assert(t[x - from] == b.subrange(from, to)[x - from]);
    }
}

proof fn lemma_rest_agrees(b: Seq<u8>, from: int)
    requires
        0 <= from <= b.len(),
    ensures
        agree(b, b.subrange(from, b.len() as int), from, b.len() as int, -from),
{
}

proof fn lemma_agree_twice(a: Seq<u8>, b: Seq<u8>, c: Seq<u8>, lo: int, d: int, e: int)
    requires
        agree(a, b, lo, a.len() as int, d),
        agree(b, c, 0, b.len() as int, e),
    ensures
        agree(a, c, lo, a.len() as int, d + e),
{
    assert forall|x: int| lo <= x < a.len() implies c[x + (d + e)] == #[trigger] a[x] by {
        assert(c[x + d + e] == b[x + d]);
    }
}

/// A kept member in front of the members of the rest.
proof fn lemma_kept_step(b: Seq<u8>, ms: Seq<MemberSpan>, k: int, rest: Seq<u8>, t: Seq<u8>)
    requires
        scanned(b, ms),
        0 <= k < ms.len() - 1,
        agree(b, t, ms[k].prefix_start, ms[k + 1].prefix_start, -ms[k].prefix_start),
        agree(rest, t, 0, rest.len() as int, ms[k + 1].prefix_start - ms[k].prefix_start),
        applied_change_spans::members_from(rest, 0) is Ok,
    ensures
        applied_change_spans::members_from(t, 0) is Ok,
        entries(t, applied_change_spans::members_from(t, 0)->Ok_0) == seq![entry(b, ms[k])]
            + entries(rest, applied_change_spans::members_from(rest, 0)->Ok_0),
        closing(t, 0, applied_change_spans::members_from(t, 0)->Ok_0) == closing(
            rest,
            0,
            applied_change_spans::members_from(rest, 0)->Ok_0,
        ) + ms[k + 1].prefix_start - ms[k].prefix_start,
{
    let m = ms[k];
    let p = m.prefix_start;
    let q = ms[k + 1].prefix_start;
    let d = q - p;
    let found = applied_change_spans::members_from(rest, 0)->Ok_0;
    lemma_scanned_member(b, ms, k);
    let next = applied_change_spans::after_space(b, m.value_end);
    assert(b[next] == 0x2c);
    lemma_member_moves(b, t, p, q, -p, m);
    lemma_entry_moves(b, t, p, q, -p, m);
    lemma_space_moves(b, t, m.value_end, q, -p);
    assert(t[next + -p] == b[next]);
    let m2 = moved(m, -p);
    lemma_first_member(t, 0, m2);
    assert(with_comma(t, m2) == m2);
    lemma_members_move(rest, t, 0, d);
    lemma_entries_move(rest, t, 0, d);
    lemma_closing_moves(rest, t, 0, d);
    let more = moved_all(found, d);
    assert(applied_change_spans::members_from(t, 0) == Ok::<Seq<MemberSpan>, SpanFault>(
        seq![m2] + more,
    ));
    assert(entries(t, seq![m2] + more) =~= seq![entry(t, m2)] + entries(t, more));
    if more.len() > 0 {
        assert((seq![m2] + more).last() == more.last());
    } else {
        assert((seq![m2] + more).last() == m2);
    }
}

/// The text that is left from the `k`th member on: its members are those that
/// are not selected, and what closes the object, and all behind it, stays.
pub open spec fn keeps_the_rest(
    b: Seq<u8>,
    ms: Seq<MemberSpan>,
    selected: Seq<bool>,
    k: int,
    t: Seq<u8>,
) -> bool {
    &&& applied_change_spans::members_from(t, 0) is Ok
    &&& entries(t, applied_change_spans::members_from(t, 0)->Ok_0) == kept_entries(
        b,
        ms,
        selected,
        k,
    )
    &&& closing(t, 0, applied_change_spans::members_from(t, 0)->Ok_0) == closing(b, 0, ms)
        + t.len() - b.len()
    &&& agree(b, t, closing(b, 0, ms), b.len() as int, t.len() - b.len())
}

proof fn lemma_kept(b: Seq<u8>, ms: Seq<MemberSpan>, selected: Seq<bool>, k: int)
    requires
        scanned(b, ms),
        selected.len() == ms.len(),
        0 <= k < ms.len(),
        starts_clean(selected, k),
        applied_change_spans::run_end(selected, 0) == ms.len() ==> ms.last().comma is None,
    ensures
        keeps_the_rest(b, ms, selected, k, tail(b, ms, selected, k)),
    decreases ms.len() - k,
{
    let t = tail(b, ms, selected, k);
    let n = ms.len() as int;
    let hi = b.len() as int;
    let last = ms.last();
    lemma_scanned_member(b, ms, n - 1);
    lemma_scanned_last(b, ms);
    applied_change_spans::run_end_bounds(selected, k);
    let to = applied_change_spans::run_end(selected, k);
    if selected[k] {
        lemma_tail_run(b, ms, selected, k);
        lemma_kept_past_run(b, ms, selected, k, to);
        if to < n {
            lemma_kept(b, ms, selected, to);
        } else {
            lemma_all_cut(b, ms, selected);
        }
    } else if k == n - 1 {
        lemma_final_kept(b, ms, selected);
    } else if starts_clean(selected, k + 1) {
        let rest = tail(b, ms, selected, k + 1);
        let p = ms[k].prefix_start;
        let q = ms[k + 1].prefix_start;
        lemma_kept(b, ms, selected, k + 1);
        lemma_tail_step(b, ms, selected, k);
        lemma_joined(b, p, q, rest, t);
        lemma_kept_step(b, ms, k, rest, t);
        lemma_agree_twice(b, rest, t, closing(b, 0, ms), rest.len() - b.len(), q - p);
    } else {
        lemma_scanned_member(b, ms, k);
        lemma_tail_last(b, ms, selected, k);
        applied_change_spans::run_end_bounds(selected, k + 1);
        lemma_kept_past_run(b, ms, selected, k + 1, n);
        lemma_ends_joined(b, ms[k].prefix_start, ms[k].comma->0, last.value_end, t);
        lemma_trailing_cut(b, ms, selected, k, t);
    }
}

proof fn lemma_ends_joined(b: Seq<u8>, from: int, to: int, rest: int, t: Seq<u8>)
    requires
        0 <= from <= to <= b.len(),
        0 <= rest <= b.len(),
        t == b.subrange(from, to) + b.subrange(rest, b.len() as int),
    ensures
        agree(b, t, from, to, -from),
        agree(b, t, rest, b.len() as int, to - from - rest),
        t.len() == to - from - rest + b.len(),
{
    let end = b.subrange(rest, b.len() as int);
    lemma_joined(b, from, to, end, t);
    lemma_rest_agrees(b, rest);
    lemma_agree_twice(b, end, t, rest, -rest, to - from);
}

proof fn lemma_trailing_cut(
    b: Seq<u8>,
    ms: Seq<MemberSpan>,
    selected: Seq<bool>,
    k: int,
    t: Seq<u8>,
)
    requires
        scanned(b, ms),
        0 <= k < ms.len() - 1,
        !selected[k],
        kept_entries(b, ms, selected, k + 1) == kept_entries(b, ms, selected, ms.len() as int),
        agree(b, t, ms[k].prefix_start, ms[k].comma->0, -ms[k].prefix_start),
        agree(
            b,
            t,
            ms.last().value_end,
            b.len() as int,
            ms[k].comma->0 - ms[k].prefix_start - ms.last().value_end,
        ),
        t.len() == ms[k].comma->0 - ms[k].prefix_start - ms.last().value_end + b.len(),
    ensures
        keeps_the_rest(b, ms, selected, k, t),
{
    let v = ms.last().value_end;
    lemma_scanned_member(b, ms, ms.len() - 1);
    lemma_scanned_last(b, ms);
    lemma_last_kept(b, ms, k, t);
    applied_change_spans::after_space_bounds(b, v);
    applied_change_spans::after_space_bounds(b, applied_change_spans::after_space(b, v) + 1);
    assert(seq![entry(b, ms[k])] + Seq::<(Seq<char>, Seq<u8>)>::empty() =~= seq![
        entry(b, ms[k]),
    ]);
}

proof fn lemma_all_cut(b: Seq<u8>, ms: Seq<MemberSpan>, selected: Seq<bool>)
    requires
        scanned(b, ms),
        ms.len() > 0,
        kept_entries(b, ms, selected, 0) == kept_entries(b, ms, selected, ms.len() as int),
        ms.last().comma is None,
    ensures
        keeps_the_rest(
            b,
            ms,
            selected,
            0,
            b.subrange(ms.last().value_end, b.len() as int),
        ),
{
    let n = ms.len() as int;
    let v = ms.last().value_end;
    let t = b.subrange(v, b.len() as int);
    let next = applied_change_spans::after_space(b, v);
    lemma_scanned_member(b, ms, n - 1);
    lemma_scanned_last(b, ms);
    lemma_rest_agrees(b, v);
    lemma_space_moves(b, t, v, b.len() as int, -v);
    assert(t[next + -v] == b[next]);
    assert(entries(t, Seq::<MemberSpan>::empty()) =~= Seq::<(Seq<char>, Seq<u8>)>::empty());
}

proof fn lemma_final_kept(b: Seq<u8>, ms: Seq<MemberSpan>, selected: Seq<bool>)
    requires
        scanned(b, ms),
        ms.len() > 0,
        selected.len() == ms.len(),
        !selected[ms.len() - 1],
    ensures
        keeps_the_rest(
            b,
            ms,
            selected,
            ms.len() - 1,
            tail(b, ms, selected, ms.len() - 1),
        ),
{
    let n = ms.len() as int;
    let last = ms.last();
    let p = last.prefix_start;
    let t = b.subrange(p, b.len() as int);
    let one = seq![last];
    lemma_scanned_member(b, ms, n - 1);
    assert(applied_change_spans::removed_spans(ms, selected, n).len() == 0);
    assert(tail(b, ms, selected, n - 1) == t);
    assert(ms.skip(n - 1) =~= one);
    assert(applied_change_spans::members_from(b, ms[n - 1].prefix_start) == Ok::<
        Seq<MemberSpan>,
        SpanFault,
    >(one));
    lemma_rest_agrees(b, p);
    lemma_members_move(b, t, p, -p);
    lemma_entries_move(b, t, p, -p);
    lemma_closing_moves(b, t, p, -p);
    lemma_closing(b, p);
    assert(entries(b, one) =~= seq![entry(b, last)]);
    assert(seq![entry(b, last)] + Seq::<(Seq<char>, Seq<u8>)>::empty() =~= seq![
        entry(b, last),
    ]);
    assert(kept_entries(b, ms, selected, n) =~= Seq::<(Seq<char>, Seq<u8>)>::empty());
    assert(closing(b, 0, ms) == closing(b, p, one));
}

/// The text with the selected members of the object at `open` cut out.
pub open spec fn cut(b: Seq<u8>, ms: Seq<MemberSpan>, selected: Seq<bool>) -> Seq<u8> {
    applied_change_spans::spliced(b, applied_change_spans::removed_spans(ms, selected, 0), 0)
}

/// What cutting members out of an object leaves: the object opens where it
/// did, holds the members that are not selected, and what closes it, and all
/// behind it, stays.
pub open spec fn keeps_the_object(
    b: Seq<u8>,
    open: int,
    ms: Seq<MemberSpan>,
    selected: Seq<bool>,
    out: Seq<u8>,
) -> bool {
    let found = applied_change_spans::object_members(out, open);
    &&& found is Ok
    &&& entries(out, found->Ok_0) == kept_entries(b, ms, selected, 0)
    &&& agree(b, out, 0, open + 1, 0)
    &&& closing(out, open + 1, found->Ok_0) == closing(b, open + 1, ms) + out.len() - b.len()
    &&& agree(b, out, closing(b, open + 1, ms), b.len() as int, out.len() - b.len())
}

proof fn lemma_object_kept(b: Seq<u8>, open: int, selected: Seq<bool>)
    requires
        applied_change_spans::object_members(b, open) is Ok,
        ({
            let ms = applied_change_spans::object_members(b, open)->Ok_0;
            &&& selected.len() == ms.len()
            &&& ms.len() > 0 && applied_change_spans::run_end(selected, 0) == ms.len()
                ==> ms.last().comma is None
        }),
    ensures
        ({
            let ms = applied_change_spans::object_members(b, open)->Ok_0;
            keeps_the_object(b, open, ms, selected, cut(b, ms, selected))
        }),
{
    let ms = applied_change_spans::object_members(b, open)->Ok_0;
    let out = cut(b, ms, selected);
    let at = open + 1;
    lemma_closing(b, at);
    if ms.len() == 0 {
        assert(out =~= b);
        assert(entries(b, ms) =~= Seq::<(Seq<char>, Seq<u8>)>::empty());
    } else {
        let rest = tail(b, ms, selected, 0);
        let spans = applied_change_spans::removed_spans(ms, selected, 0);
        lemma_scanned(b, at);
        lemma_kept(b, ms, selected, 0);
        lemma_first_span(b, ms, selected, 0);
        if spans.len() == 0 {
            assert(out =~= b.subrange(0, at) + rest);
        } else {
            assert(b.subrange(0, spans[0].0) =~= b.subrange(0, at) + b.subrange(at, spans[0].0));
            assert(out =~= b.subrange(0, at) + rest);
        }
        lemma_joined(b, 0, at, rest, out);
        lemma_agree_twice(b, rest, out, closing(b, 0, ms), rest.len() - b.len(), at);
        lemma_opened(b, open, rest, out);
    }
}

/// The members of the rest stand behind the brace that opens the object.
proof fn lemma_opened(b: Seq<u8>, open: int, rest: Seq<u8>, out: Seq<u8>)
    requires
        applied_change_spans::byte_is(b, open, 0x7b),
        agree(b, out, 0, open + 1, 0),
        agree(rest, out, 0, rest.len() as int, open + 1),
        applied_change_spans::members_from(rest, 0) is Ok,
    ensures
        applied_change_spans::object_members(out, open) is Ok,
        entries(out, applied_change_spans::object_members(out, open)->Ok_0) == entries(
            rest,
            applied_change_spans::members_from(rest, 0)->Ok_0,
        ),
        closing(out, open + 1, applied_change_spans::object_members(out, open)->Ok_0) == closing(
            rest,
            0,
            applied_change_spans::members_from(rest, 0)->Ok_0,
        ) + open + 1,
{
    assert(out[open + 0] == b[open]);
    lemma_members_move(rest, out, 0, open + 1);
    lemma_entries_move(rest, out, 0, open + 1);
    lemma_closing_moves(rest, out, 0, open + 1);
}

/// Opens a string, an object or a list.
pub open spec fn opens(byte: u8) -> bool {
    byte == 0x22 || byte == 0x7b || byte == 0x5b
}

/// A bare value, such as a number, holds nothing that opens a string, an object
/// or a list: no JSON value does.
pub open spec fn is_json_shaped(value: Seq<u8>) -> bool {
    value.len() > 0 && opens(value[0]) || forall|i: int|
        0 <= i < value.len() ==> !opens(#[trigger] value[i])
}

pub open spec fn all_json_shaped(found: Seq<(Seq<char>, Seq<u8>)>) -> bool {
    forall|i: int| 0 <= i < found.len() ==> is_json_shaped((#[trigger] found[i]).1)
}

proof fn lemma_container_space(b: Seq<u8>, at: int, closers: Seq<u8>, start: int)
    requires
        0 <= at,
    ensures
        applied_change_spans::container_end(b, at, closers, start)
            == applied_change_spans::container_end(
            b,
            applied_change_spans::after_space(b, at),
            closers,
            start,
        ),
    decreases b.len() - at,
{
    if at < b.len() && applied_change_spans::is_json_space(b[at]) {
        lemma_container_space(b, at + 1, closers, start);
    }
}

proof fn lemma_container_bare(b: Seq<u8>, at: int, to: int, closers: Seq<u8>, start: int)
    requires
        0 <= at <= to <= b.len(),
        forall|x: int|
            at <= x < to ==> !opens(#[trigger] b[x]) && !applied_change_spans::ends_literal(b[x]),
    ensures
        applied_change_spans::container_end(b, at, closers, start)
            == applied_change_spans::container_end(b, to, closers, start),
    decreases to - at,
{
    if at < to {
        assert(!opens(b[at]) && !applied_change_spans::ends_literal(b[at]));
        lemma_container_bare(b, at + 1, to, closers, start);
    }
}

/// A container inside another one is passed over as a whole.
proof fn lemma_container_inside(
    b: Seq<u8>,
    at: int,
    outer: Seq<u8>,
    inner: Seq<u8>,
    inner_start: int,
    start: int,
)
    requires
        outer.len() > 0,
        inner.len() > 0,
        applied_change_spans::container_end(b, at, inner, inner_start) is Ok,
    ensures
        applied_change_spans::container_end(b, at, outer + inner, start)
            == applied_change_spans::container_end(
            b,
            applied_change_spans::container_end(b, at, inner, inner_start)->Ok_0,
            outer,
            start,
        ),
    decreases b.len() - at,
{
    applied_change_spans::container_end_bounds(b, at, inner, inner_start);
    let both = outer + inner;
    if b[at] == 0x22 {
        let end = applied_change_spans::string_end(b, at)->Ok_0;
        applied_change_spans::after_quote_bounds(b, at + 1);
        lemma_container_inside(b, end, outer, inner, inner_start, start);
    } else if b[at] == 0x7b {
        lemma_container_inside(b, at + 1, outer, inner.push(0x7d), inner_start, start);
        assert(both.push(0x7d) =~= outer + inner.push(0x7d));
    } else if b[at] == 0x5b {
        lemma_container_inside(b, at + 1, outer, inner.push(0x5d), inner_start, start);
        assert(both.push(0x5d) =~= outer + inner.push(0x5d));
    } else if b[at] == 0x7d || b[at] == 0x5d {
        assert(both.last() == inner.last());
        if inner.len() == 1 {
            assert(both.drop_last() =~= outer);
        } else {
            lemma_container_inside(b, at + 1, outer, inner.drop_last(), inner_start, start);
            assert(both.drop_last() =~= outer + inner.drop_last());
        }
    } else {
        lemma_container_inside(b, at + 1, outer, inner, inner_start, start);
    }
}

proof fn lemma_literal_bytes(b: Seq<u8>, at: int)
    requires
        0 <= at,
    ensures
        forall|x: int|
            at <= x < applied_change_spans::literal_end(b, at)
                ==> !applied_change_spans::ends_literal(#[trigger] b[x]),
    decreases b.len() - at,
{
    if at < b.len() && !applied_change_spans::ends_literal(b[at]) {
        lemma_literal_bytes(b, at + 1);
        let end = applied_change_spans::literal_end(b, at + 1);
        assert forall|x: int| at <= x < end implies !applied_change_spans::ends_literal(
            #[trigger] b[x],
        ) by {
            if x > at {
                assert(at + 1 <= x);
            }
        }
    }
}

/// A value inside an object is passed over as a whole.
proof fn lemma_container_value(b: Seq<u8>, from: int, start: int)
    requires
        0 <= from,
        applied_change_spans::after_space(b, from) == from,
        applied_change_spans::value_end(b, from) is Ok,
        is_json_shaped(b.subrange(from, applied_change_spans::value_end(b, from)->Ok_0)),
    ensures
        applied_change_spans::container_end(b, from, seq![0x7du8], start)
            == applied_change_spans::container_end(
            b,
            applied_change_spans::value_end(b, from)->Ok_0,
            seq![0x7du8],
            start,
        ),
{
    let end = applied_change_spans::value_end(b, from)->Ok_0;
    let object = seq![0x7du8];
    applied_change_spans::value_end_bounds(b, from);
    if b[from] == 0x7b {
        lemma_container_inside(b, from + 1, object, seq![0x7du8], from, start);
        assert(object.push(0x7d) =~= object + seq![0x7du8]);
    } else if b[from] == 0x5b {
        lemma_container_inside(b, from + 1, object, seq![0x5du8], from, start);
        assert(object.push(0x5d) =~= object + seq![0x5du8]);
    } else if b[from] != 0x22 {
        let value = b.subrange(from, end);
        lemma_literal_bytes(b, from);
        assert forall|x: int| from <= x < end implies !opens(#[trigger] b[x])
            && !applied_change_spans::ends_literal(b[x]) by {
            assert(value[x - from] == b[x]);
            assert(value[0] == b[from]);
        }
        lemma_container_bare(b, from, end, object, start);
    }
}

/// An object ends behind the brace that closes its members.
proof fn lemma_object_end(b: Seq<u8>, at: int, start: int)
    requires
        0 <= at,
        applied_change_spans::members_from(b, at) is Ok,
        all_json_shaped(entries(b, applied_change_spans::members_from(b, at)->Ok_0)),
    ensures
        applied_change_spans::container_end(b, at, seq![0x7du8], start) == Ok::<int, SpanFault>(
            closing(b, at, applied_change_spans::members_from(b, at)->Ok_0) + 1,
        ),
    decreases b.len() - at,
{
    let ms = applied_change_spans::members_from(b, at)->Ok_0;
    let object = seq![0x7du8];
    lemma_container_space(b, at, object, start);
    if ms.len() == 0 {
        lemma_no_members(b, at);
    } else {
        let m = ms[0];
        lemma_has_first(b, at);
        lemma_first_member(b, at, m);
        lemma_behind_value(b, m);
        assert(entries(b, ms)[0] == entry(b, m));
        lemma_object_step(b, at, m, start);
        let next = applied_change_spans::after_space(b, m.value_end);
        if applied_change_spans::byte_is(b, next, 0x2c) {
            let rest = applied_change_spans::members_from(b, next + 1)->Ok_0;
            assert(ms =~= seq![m] + rest);
            assert forall|i: int| 0 <= i < entries(b, rest).len() implies is_json_shaped(
                (#[trigger] entries(b, rest)[i]).1,
            ) by {
                assert(entries(b, ms)[i + 1] == entries(b, rest)[i]);
            }
            lemma_object_end(b, next + 1, start);
            if rest.len() > 0 {
                assert(ms.last() == rest.last());
            }
        } else {
            assert(ms =~= seq![m]);
        }
    }
}

proof fn lemma_object_step(b: Seq<u8>, at: int, m: MemberSpan, start: int)
    requires
        stands_at(b, at, m),
        is_json_shaped(entry(b, m).1),
    ensures
        applied_change_spans::container_end(b, at, seq![0x7du8], start)
            == applied_change_spans::container_end(
            b,
            applied_change_spans::after_space(b, m.value_end),
            seq![0x7du8],
            start,
        ),
{
    let object = seq![0x7du8];
    let key_start = applied_change_spans::after_space(b, at);
    let key_end = applied_change_spans::string_end(b, key_start)->Ok_0;
    let colon = applied_change_spans::after_space(b, key_end);
    applied_change_spans::member_moves_on(b, at);
    lemma_container_space(b, at, object, start);
    lemma_container_space(b, key_end, object, start);
    lemma_container_space(b, colon + 1, object, start);
    lemma_space_again(b, colon + 1);
    lemma_container_value(b, m.value_start, start);
    lemma_container_space(b, m.value_end, object, start);
}

/// Where the last member of a name stands.
proof fn lemma_last_named_at(ms: Seq<MemberSpan>, name: Seq<char>) -> (c: int)
    requires
        applied_change_spans::last_named(ms, name) is Some,
    ensures
        0 <= c < ms.len(),
        ms[c].key == name,
        applied_change_spans::last_named(ms, name) == Some(ms[c]),
        forall|j: int| c < j < ms.len() ==> (#[trigger] ms[j]).key != name,
    decreases ms.len(),
{
    if ms.last().key == name {
        ms.len() - 1
    } else {
        let c = lemma_last_named_at(ms.drop_last(), name);
        assert forall|j: int| c < j < ms.len() implies (#[trigger] ms[j]).key != name by {
            if j < ms.len() - 1 {
                assert(ms.drop_last()[j] == ms[j]);
            }
        }
        c
    }
}

pub proof fn lemma_last_named_is(ms: Seq<MemberSpan>, name: Seq<char>, c: int)
    requires
        0 <= c < ms.len(),
        ms[c].key == name,
        forall|j: int| c < j < ms.len() ==> (#[trigger] ms[j]).key != name,
    ensures
        applied_change_spans::last_named(ms, name) == Some(ms[c]),
    decreases ms.len(),
{
    if c < ms.len() - 1 {
        assert(ms[ms.len() - 1].key != name);
        assert forall|j: int| c < j < ms.drop_last().len() implies (
        #[trigger] ms.drop_last()[j]).key != name by {
            assert(ms.drop_last()[j] == ms[j]);
        }
        lemma_last_named_is(ms.drop_last(), name, c);
    }
}

/// `ms` where the value of the `c`th member has grown by `d`.
pub open spec fn regrown(ms: Seq<MemberSpan>, c: int, d: int) -> Seq<MemberSpan> {
    Seq::new(
        ms.len(),
        |i: int|
            if i < c {
                ms[i]
            } else if i == c {
                MemberSpan {
                    prefix_start: ms[i].prefix_start,
                    value_start: ms[i].value_start,
                    ..moved(ms[i], d)
                }
            } else {
                moved(ms[i], d)
            },
    )
}

/// The member whose value has changed its length, and those behind it.
proof fn lemma_root_from_changes(b: Seq<u8>, out: Seq<u8>, root: Seq<MemberSpan>, c: int, d: int)
    requires
        scanned(b, root),
        0 <= c < root.len(),
        applied_change_spans::byte_is(b, root[c].value_start, 0x7b),
        agree(b, out, 0, root[c].value_start + 1, 0),
        applied_change_spans::container_end(
            out,
            root[c].value_start + 1,
            seq![0x7du8],
            root[c].value_start,
        ) == Ok::<int, SpanFault>(root[c].value_end + d),
        root[c].value_start < root[c].value_end,
        agree(b, out, root[c].value_end, b.len() as int, d),
    ensures
        applied_change_spans::members_from(out, root[c].prefix_start) == Ok::<
            Seq<MemberSpan>,
            SpanFault,
        >(regrown(root, c, d).skip(c)),
{
    let m = root[c];
    let p = m.prefix_start;
    let open = m.value_start;
    let hi = b.len() as int;
    lemma_scanned_member(b, root, c);
    assert(agree(b, out, p, open + 1, 0));
    lemma_key_moves(b, out, p, open + 1, 0, m);
    let key_start = applied_change_spans::after_space(b, p);
    let key_end = applied_change_spans::string_end(b, key_start)->Ok_0;
    let colon = applied_change_spans::after_space(b, key_end);
    lemma_space_again(b, colon + 1);
    lemma_space_moves(b, out, colon + 1, open + 1, 0);
    lemma_space_moves(b, out, open, open + 1, 0);
    assert(out[open + 0] == b[open]);
    let m2 = regrown(root, c, d)[c];
    assert(stands_at(out, p, m2));
    lemma_first_member(out, p, m2);
    let next = applied_change_spans::after_space(b, m.value_end);
    lemma_space_moves(b, out, m.value_end, hi, d);
    assert(out[next + d] == b[next]);
    assert(with_comma(out, m2) == m2);
    assert(root.skip(c)[0] == m);
    lemma_has_first(b, p);
    let new = regrown(root, c, d);
    if applied_change_spans::byte_is(b, next, 0x2c) {
        let rest = applied_change_spans::members_from(b, next + 1)->Ok_0;
        assert(root.skip(c) =~= seq![m] + rest);
        lemma_members_move(b, out, next + 1, d);
        assert(new.skip(c) =~= seq![m2] + moved_all(rest, d)) by {
            assert forall|i: int| 0 <= i < new.skip(c).len() implies new.skip(c)[i] == (seq![m2]
                + moved_all(rest, d))[i] by {
                if i > 0 {
                    assert(rest[i - 1] == root.skip(c)[i]);
                }
            }
        }
    } else {
        assert(root.skip(c) =~= seq![m]);
        assert(new.skip(c) =~= seq![m2]);
    }
}

/// The members in front of the one whose value has changed its length.
proof fn lemma_root_from(b: Seq<u8>, out: Seq<u8>, root: Seq<MemberSpan>, c: int, d: int, i: int)
    requires
        scanned(b, root),
        0 <= i <= c < root.len(),
        agree(b, out, 0, root[c].value_start + 1, 0),
        applied_change_spans::members_from(out, root[c].prefix_start) == Ok::<
            Seq<MemberSpan>,
            SpanFault,
        >(regrown(root, c, d).skip(c)),
    ensures
        applied_change_spans::members_from(out, root[i].prefix_start) == Ok::<
            Seq<MemberSpan>,
            SpanFault,
        >(regrown(root, c, d).skip(i)),
        i < c ==> entry(out, root[i]) == entry(b, root[i]),
    decreases c - i,
{
    if i < c {
        let m = root[i];
        let p = m.prefix_start;
        let q = root[i + 1].prefix_start;
        let new = regrown(root, c, d);
        lemma_root_from(b, out, root, c, d, i + 1);
        lemma_scanned_member(b, root, i);
        lemma_scanned_member(b, root, c);
        applied_change_spans::lemma_line_order(b, root, i + 1, c);
        assert(agree(b, out, p, q, 0));
        lemma_member_moves(b, out, p, q, 0, m);
        lemma_entry_moves(b, out, p, q, 0, m);
        assert(moved(m, 0) == m);
        lemma_first_member(out, p, m);
        let next = applied_change_spans::after_space(b, m.value_end);
        lemma_space_moves(b, out, m.value_end, q, 0);
        assert(b[next] == 0x2c);
        assert(out[next + 0] == b[next]);
        assert(with_comma(out, m) == m);
        assert(new.skip(i) =~= seq![m] + new.skip(i + 1));
    }
}

proof fn lemma_kept_shaped(b: Seq<u8>, ms: Seq<MemberSpan>, selected: Seq<bool>, k: int)
    requires
        0 <= k <= ms.len(),
        all_json_shaped(entries(b, ms)),
    ensures
        all_json_shaped(kept_entries(b, ms, selected, k)),
    decreases ms.len() - k,
{
    if k < ms.len() {
        lemma_kept_shaped(b, ms, selected, k + 1);
        assert(entries(b, ms)[k] == entry(b, ms[k]));
    }
}

/// The members of the root object of a log.
pub open spec fn root_members(bytes: Seq<u8>) -> Result<Seq<MemberSpan>, SpanFault> {
    applied_change_spans::object_members(bytes, applied_change_spans::after_space(bytes, 0))
}

/// The root member that holds the changes of a log.
pub open spec fn changes_member(bytes: Seq<u8>) -> MemberSpan {
    applied_change_spans::last_named(root_members(bytes)->Ok_0, "changes"@)->0
}

/// No comma stands behind the last of the changes, unless one of them is not
/// applied.
pub open spec fn closes_cleanly(bytes: Seq<u8>, applied: Seq<String>) -> bool {
    let members = applied_change_spans::change_members(bytes)->Ok_0;
    let selected = applied_change_spans::selection(members, applied);
    members.len() > 0 && (forall|i: int| 0 <= i < selected.len() ==> #[trigger] selected[i])
        ==> members.last().comma is None
}

/// The changes of a log stand in line, behind the brace that opens them.
pub proof fn lemma_changes_in_line(bytes: Seq<u8>)
    requires
        applied_change_spans::change_members(bytes) is Ok,
    ensures
        ({
            let members = applied_change_spans::change_members(bytes)->Ok_0;
            let open = changes_member(bytes).value_start;
            &&& applied_change_spans::members_in_line(bytes, members)
            &&& members.len() > 0 ==> members[0].prefix_start == open + 1 && 0 < open + 1
                <= bytes.len()
        }),
{
    let open = changes_member(bytes).value_start;
    lemma_scanned(bytes, open + 1);
}

proof fn lemma_changes_kept(bytes: Seq<u8>, applied: Seq<String>)
    requires
        applied_change_spans::change_members(bytes) is Ok,
        closes_cleanly(bytes, applied),
    ensures
        ({
            let members = applied_change_spans::change_members(bytes)->Ok_0;
            let selected = applied_change_spans::selection(members, applied);
            let out = cut(bytes, members, selected);
            &&& applied_change_spans::without_applied(bytes, applied) == Ok::<Seq<u8>, SpanFault>(
                out,
            )
            &&& keeps_the_object(bytes, changes_member(bytes).value_start, members, selected, out)
        }),
{
    let members = applied_change_spans::change_members(bytes)->Ok_0;
    let selected = applied_change_spans::selection(members, applied);
    let open = changes_member(bytes).value_start;
    applied_change_spans::run_end_bounds(selected, 0);
    lemma_object_kept(bytes, open, selected);
}

/// The `changes` object of a rewritten log stands where it stood, and holds
/// exactly the changes that are not applied: their keys and the bytes of their
/// values, in their order.
pub proof fn unapplied_changes_are_kept(bytes: Seq<u8>, applied: Seq<String>)
    requires
        applied_change_spans::change_members(bytes) is Ok,
        closes_cleanly(bytes, applied),
    ensures
        ({
            let members = applied_change_spans::change_members(bytes)->Ok_0;
            let out = applied_change_spans::without_applied(bytes, applied)->Ok_0;
            let left = applied_change_spans::object_members(
                out,
                changes_member(bytes).value_start,
            );
            &&& left is Ok
            &&& entries(out, left->Ok_0) == kept_entries(
                bytes,
                members,
                applied_change_spans::selection(members, applied),
                0,
            )
        }),
{
    lemma_changes_kept(bytes, applied);
}

/// A rewritten log can be read again: its changes are those that are not
/// applied, and every other field of the log has kept its key, its place in
/// the order and the bytes of its value.
pub proof fn rewritten_log_reads_back(bytes: Seq<u8>, applied: Seq<String>)
    requires
        applied_change_spans::change_members(bytes) is Ok,
        closes_cleanly(bytes, applied),
        all_json_shaped(entries(bytes, applied_change_spans::change_members(bytes)->Ok_0)),
    ensures
        ({
            let members = applied_change_spans::change_members(bytes)->Ok_0;
            let out = applied_change_spans::without_applied(bytes, applied)->Ok_0;
            let left = applied_change_spans::change_members(out);
            let before = root_members(bytes)->Ok_0;
            let after = root_members(out)->Ok_0;
            &&& left is Ok
            &&& entries(out, left->Ok_0) == kept_entries(
                bytes,
                members,
                applied_change_spans::selection(members, applied),
                0,
            )
            &&& after.len() == before.len()
            &&& forall|i: int|
                0 <= i < before.len() ==> {
                    &&& (#[trigger] after[i]).key == before[i].key
                    &&& before[i] != changes_member(bytes) ==> entry(out, after[i]) == entry(
                        bytes,
                        before[i],
                    )
                }
        }),
{
    let members = applied_change_spans::change_members(bytes)->Ok_0;
    let selected = applied_change_spans::selection(members, applied);
    let out = applied_change_spans::without_applied(bytes, applied)->Ok_0;
    let root = root_members(bytes)->Ok_0;
    let c = lemma_last_named_at(root, "changes"@);
    lemma_changes_kept(bytes, applied);
    lemma_kept_shaped(bytes, members, selected, 0);
    lemma_root_around(bytes, out, root, c, members, selected);
}

/// The root object around a rewritten `changes` object.
proof fn lemma_root_around(
    b: Seq<u8>,
    out: Seq<u8>,
    root: Seq<MemberSpan>,
    c: int,
    members: Seq<MemberSpan>,
    selected: Seq<bool>,
)
    requires
        root_members(b) == Ok::<Seq<MemberSpan>, SpanFault>(root),
        0 <= c < root.len(),
        root[c].key == "changes"@,
        forall|j: int| c < j < root.len() ==> (#[trigger] root[j]).key != "changes"@,
        applied_change_spans::object_members(b, root[c].value_start) == Ok::<
            Seq<MemberSpan>,
            SpanFault,
        >(members),
        keeps_the_object(b, root[c].value_start, members, selected, out),
        all_json_shaped(entries(b, members)),
        all_json_shaped(kept_entries(b, members, selected, 0)),
    ensures
        root_members(out) == Ok::<Seq<MemberSpan>, SpanFault>(
            regrown(root, c, out.len() - b.len()),
        ),
        applied_change_spans::last_named(regrown(root, c, out.len() - b.len()), "changes"@) == Some(
            regrown(root, c, out.len() - b.len())[c],
        ),
        forall|i: int|
            0 <= i < root.len() && i != c ==> entry(
                out,
                #[trigger] regrown(root, c, out.len() - b.len())[i],
            ) == entry(b, root[i]),
{
    let m = root[c];
    let open = m.value_start;
    let d = out.len() - b.len();
    let close = closing(b, open + 1, members);
    lemma_scanned(b, applied_change_spans::after_space(b, 0) + 1);
    lemma_scanned_member(b, root, c);
    lemma_closing(b, open + 1);
    lemma_open_is_value(b, root, c);
    lemma_object_end(b, open + 1, open);
    lemma_object_end(out, open + 1, open);
    assert(m.value_end == close + 1);
    assert(agree(b, out, close + 1, b.len() as int, d));
    lemma_root_from_changes(b, out, root, c, d);
    lemma_root_read_back(b, out, root, c, d);
}

/// The value of a scanned member starts where no space is skipped.
proof fn lemma_open_is_value(b: Seq<u8>, root: Seq<MemberSpan>, c: int)
    requires
        scanned(b, root),
        0 <= c < root.len(),
    ensures
        applied_change_spans::after_space(b, root[c].value_start) == root[c].value_start,
        applied_change_spans::value_end(b, root[c].value_start) == Ok::<int, SpanFault>(
            root[c].value_end,
        ),
{
    let m = root[c];
    lemma_scanned_member(b, root, c);
    applied_change_spans::member_moves_on(b, m.prefix_start);
    let key_start = applied_change_spans::after_space(b, m.prefix_start);
    let key_end = applied_change_spans::string_end(b, key_start)->Ok_0;
    lemma_space_again(b, applied_change_spans::after_space(b, key_end) + 1);
}

/// The root object around a changed value.
proof fn lemma_root_read_back(b: Seq<u8>, out: Seq<u8>, root: Seq<MemberSpan>, c: int, d: int)
    requires
        root_members(b) == Ok::<Seq<MemberSpan>, SpanFault>(root),
        0 <= c < root.len(),
        root[c].key == "changes"@,
        forall|j: int| c < j < root.len() ==> (#[trigger] root[j]).key != "changes"@,
        agree(b, out, 0, root[c].value_start + 1, 0),
        agree(b, out, root[c].value_end, b.len() as int, d),
        applied_change_spans::members_from(out, root[c].prefix_start) == Ok::<
            Seq<MemberSpan>,
            SpanFault,
        >(regrown(root, c, d).skip(c)),
    ensures
        root_members(out) == Ok::<Seq<MemberSpan>, SpanFault>(regrown(root, c, d)),
        applied_change_spans::last_named(regrown(root, c, d), "changes"@) == Some(
            regrown(root, c, d)[c],
        ),
        forall|i: int|
            0 <= i < root.len() && i != c ==> entry(out, #[trigger] regrown(root, c, d)[i])
                == entry(b, root[i]),
{
    let new = regrown(root, c, d);
    let first = applied_change_spans::after_space(b, 0);
    applied_change_spans::after_space_bounds(b, 0);
    lemma_scanned(b, first + 1);
    lemma_scanned_member(b, root, 0);
    lemma_scanned_member(b, root, c);
    applied_change_spans::lemma_line_order(b, root, 0, c);
    lemma_space_moves(b, out, 0, root[c].value_start + 1, 0);
    assert(out[first + 0] == b[first]);
    lemma_root_from(b, out, root, c, d, 0);
    assert(new.skip(0) =~= new);
    lemma_last_named_is(new, "changes"@, c);
    assert forall|i: int| 0 <= i < root.len() && i != c implies entry(out, #[trigger] new[i])
        == entry(b, root[i]) by {
        if i < c {
            lemma_root_from(b, out, root, c, d, i);
        } else {
            lemma_scanned_member(b, root, i);
            applied_change_spans::lemma_line_order(b, root, c + 1, i);
            lemma_entry_moves(b, out, root[c].value_end, b.len() as int, d, root[i]);
        }
    }
}

proof fn lemma_kept_unapplied(
    b: Seq<u8>,
    ms: Seq<MemberSpan>,
    applied: Seq<String>,
    k: int,
    i: int,
)
    requires
        0 <= k <= ms.len(),
        0 <= i < kept_entries(b, ms, applied_change_spans::selection(ms, applied), k).len(),
    ensures
        !paths::lists_place(
            applied,
            kept_entries(b, ms, applied_change_spans::selection(ms, applied), k)[i].0,
        ),
    decreases ms.len() - k,
{
    let selected = applied_change_spans::selection(ms, applied);
    if k < ms.len() {
        if selected[k] {
            lemma_kept_unapplied(b, ms, applied, k + 1, i);
        } else if i > 0 {
            lemma_kept_unapplied(b, ms, applied, k + 1, i - 1);
        }
    }
}

/// A log from which the applied changes were removed has none left to remove.
pub proof fn rewriting_again_changes_nothing(bytes: Seq<u8>, applied: Seq<String>)
    requires
        applied_change_spans::change_members(bytes) is Ok,
        closes_cleanly(bytes, applied),
        all_json_shaped(entries(bytes, applied_change_spans::change_members(bytes)->Ok_0)),
    ensures
        ({
            let out = applied_change_spans::without_applied(bytes, applied)->Ok_0;
            applied_change_spans::without_applied(out, applied) == Ok::<Seq<u8>, SpanFault>(out)
        }),
{
    let members = applied_change_spans::change_members(bytes)->Ok_0;
    let out = applied_change_spans::without_applied(bytes, applied)->Ok_0;
    rewritten_log_reads_back(bytes, applied);
    let left = applied_change_spans::change_members(out)->Ok_0;
    assert forall|i: int| 0 <= i < left.len() implies !paths::lists_place(
        applied,
        (#[trigger] left[i]).key,
    ) by {
        assert(entries(out, left)[i] == entry(out, left[i]));
        lemma_kept_unapplied(bytes, members, applied, 0, i);
    }
    applied_change_spans::unapplied_log_is_unchanged(out, applied);
}

} // verus!
