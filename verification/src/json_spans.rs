//! Where the parts of a JSON text begin and end.

use crate::applied_change_spans;
use crate::applied_change_spans::SpanFault;
use vstd::prelude::*;
use vstd::utf8::*;

verus! {

/// White space is spaces, tabs, carriage returns and line feeds, and is skipped
/// up to the first other byte, or to the end.
pub proof fn white_space_is_skipped(bytes: Seq<u8>, at: int, to: int)
    requires
        0 <= at <= to <= bytes.len(),
        forall|k: int|
            at <= k < to ==> (#[trigger] bytes[k]) == 0x20 || bytes[k] == 0x09 || bytes[k] == 0x0d
                || bytes[k] == 0x0a,
        to < bytes.len() ==> bytes[to] != 0x20 && bytes[to] != 0x09 && bytes[to] != 0x0d
            && bytes[to] != 0x0a,
    ensures
        applied_change_spans::after_space(bytes, at) == to,
    decreases to - at,
{
    if at < to {
        white_space_is_skipped(bytes, at + 1, to);
    }
}

/// Pieces of a string, each a plain byte or a backslash with the byte behind it,
/// do not end it.
proof fn lemma_pieces(bytes: Seq<u8>, head: Seq<u8>, pieces: Seq<Seq<u8>>, rest: Seq<u8>)
    requires
        bytes == head + pieces.flatten() + rest,
        forall|i: int|
            0 <= i < pieces.len() ==> ((#[trigger] pieces[i]).len() == 1 && pieces[i][0] != 0x22
                && pieces[i][0] != 0x5c) || (pieces[i].len() == 2 && pieces[i][0] == 0x5c),
    ensures
        applied_change_spans::after_quote(bytes, head.len() as int)
            == applied_change_spans::after_quote(
            bytes,
            (head.len() + pieces.flatten().len()) as int,
        ),
    decreases pieces.len(),
{
    if pieces.len() == 0 {
        assert(pieces.flatten() =~= Seq::empty());
    } else {
        let first = pieces.first();
        let others = pieces.drop_first();
        assert(first == pieces[0]);
        assert(pieces.flatten() == first + others.flatten());
        assert(bytes =~= (head + first) + others.flatten() + rest);
        assert forall|i: int| 0 <= i < others.len() implies ((#[trigger] others[i]).len() == 1
            && others[i][0] != 0x22 && others[i][0] != 0x5c) || (others[i].len() == 2
            && others[i][0] == 0x5c) by {
            assert(others[i] == pieces[i + 1]);
        }
        lemma_pieces(bytes, head + first, others, rest);
        assert(bytes[head.len() as int] == first[0]);
    }
}

/// A string ends behind its first quote that no backslash stands before.
pub proof fn strings_end_at_their_first_bare_quote(
    head: Seq<u8>,
    pieces: Seq<Seq<u8>>,
    tail: Seq<u8>,
)
    requires
        forall|i: int|
            0 <= i < pieces.len() ==> ((#[trigger] pieces[i]).len() == 1 && pieces[i][0] != 0x22
                && pieces[i][0] != 0x5c) || (pieces[i].len() == 2 && pieces[i][0] == 0x5c),
    ensures
        applied_change_spans::string_end(
            head + seq![0x22u8] + pieces.flatten() + seq![0x22u8] + tail,
            head.len() as int,
        ) == Ok::<int, SpanFault>((head.len() + pieces.flatten().len() + 2) as int),
        applied_change_spans::string_end(
            head + seq![0x22u8] + pieces.flatten(),
            head.len() as int,
        ) == Err::<int, SpanFault>(SpanFault::UnterminatedString(head.len() as int)),
{
    let opened = head + seq![0x22u8];
    let body = pieces.flatten();
    let bytes = head + seq![0x22u8] + body + seq![0x22u8] + tail;
    assert(bytes =~= opened + body + (seq![0x22u8] + tail));
    lemma_pieces(bytes, opened, pieces, seq![0x22u8] + tail);
    assert(bytes[head.len() as int] == 0x22);
    assert(bytes[(opened.len() + body.len()) as int] == 0x22);
    let open = head + seq![0x22u8] + body;
    assert(open =~= opened + body + Seq::<u8>::empty());
    lemma_pieces(open, opened, pieces, Seq::empty());
    assert(open[head.len() as int] == 0x22);
}

/// What does not begin with a quote is no string.
pub proof fn strings_begin_with_a_quote(bytes: Seq<u8>, start: int)
    requires
        start < 0 || start >= bytes.len() || bytes[start] != 0x22,
    ensures
        applied_change_spans::string_end(bytes, start) == Err::<int, SpanFault>(
            SpanFault::ExpectedString(start),
        ),
{
}

/// A literal ends before the white space, the comma or the closing bracket behind
/// it, or at the end.
pub proof fn literals_end_at_their_separator(bytes: Seq<u8>, start: int, end: int)
    requires
        0 <= start < end <= bytes.len(),
        bytes[start] != 0x22,
        bytes[start] != 0x7b,
        bytes[start] != 0x5b,
        forall|k: int|
            start <= k < end ==> (#[trigger] bytes[k]) != 0x20 && bytes[k] != 0x09 && bytes[k]
                != 0x0d && bytes[k] != 0x0a && bytes[k] != 0x2c && bytes[k] != 0x7d && bytes[k]
                != 0x5d,
        end < bytes.len() ==> bytes[end] == 0x20 || bytes[end] == 0x09 || bytes[end] == 0x0d
            || bytes[end] == 0x0a || bytes[end] == 0x2c || bytes[end] == 0x7d || bytes[end] == 0x5d,
    ensures
        applied_change_spans::value_end(bytes, start) == Ok::<int, SpanFault>(end),
{
    white_space_is_skipped(bytes, start, start);
    lemma_literal(bytes, start, end);
}

/// A literal goes on to its end.
proof fn lemma_literal(bytes: Seq<u8>, start: int, end: int)
    requires
        0 <= start <= end <= bytes.len(),
        forall|k: int|
            start <= k < end ==> !applied_change_spans::ends_literal(#[trigger] bytes[k]),
        end < bytes.len() ==> applied_change_spans::ends_literal(bytes[end]),
    ensures
        applied_change_spans::literal_end(bytes, start) == end,
    decreases end - start,
{
    if start < end {
        assert(!applied_change_spans::ends_literal(bytes[start]));
        lemma_literal(bytes, start + 1, end);
    }
}

/// A container without strings or containers in it ends at its bracket.
pub proof fn flat_containers_end_at_their_bracket(bytes: Seq<u8>, start: int, end: int)
    requires
        0 <= start,
        start + 1 < end <= bytes.len(),
        (bytes[start] == 0x7b && bytes[end - 1] == 0x7d) || (bytes[start] == 0x5b && bytes[end - 1]
            == 0x5d),
        forall|k: int|
            start < k < end - 1 ==> (#[trigger] bytes[k]) != 0x22 && bytes[k] != 0x7b && bytes[k]
                != 0x5b && bytes[k] != 0x7d && bytes[k] != 0x5d,
    ensures
        applied_change_spans::value_end(bytes, start) == Ok::<int, SpanFault>(end),
{
    white_space_is_skipped(bytes, start, start);
    let closer = bytes[end - 1];
    lemma_passed(bytes, start + 1, end - 1, seq![closer], start);
    assert(seq![closer].last() == closer);
}

/// Bytes that mean nothing to a container are passed over.
proof fn lemma_passed(bytes: Seq<u8>, at: int, to: int, closers: Seq<u8>, start: int)
    requires
        0 <= at <= to <= bytes.len(),
        forall|k: int|
            at <= k < to ==> (#[trigger] bytes[k]) != 0x22 && bytes[k] != 0x7b && bytes[k] != 0x5b
                && bytes[k] != 0x7d && bytes[k] != 0x5d,
    ensures
        applied_change_spans::container_end(bytes, at, closers, start)
            == applied_change_spans::container_end(bytes, to, closers, start),
    decreases to - at,
{
    if at < to {
        assert(bytes[at] != 0x22);
        lemma_passed(bytes, at + 1, to, closers, start);
    }
}

/// What closes an inner container leaves the outer ones open.
proof fn lemma_inner(
    bytes: Seq<u8>,
    at: int,
    outer: Seq<u8>,
    closers: Seq<u8>,
    start: int,
    inner: int,
)
    requires
        outer.len() > 0,
        closers.len() > 0,
        applied_change_spans::container_end(bytes, at, closers, inner) is Ok,
    ensures
        applied_change_spans::container_end(bytes, at, outer + closers, start)
            == applied_change_spans::container_end(
            bytes,
            applied_change_spans::container_end(bytes, at, closers, inner)->Ok_0,
            outer,
            start,
        ),
    decreases bytes.len() - at,
{
    let all = outer + closers;
    assert(all.last() == closers.last());
    assert(all.drop_last() =~= outer + closers.drop_last());
    if bytes[at] == 0x22 {
        applied_change_spans::after_quote_bounds(bytes, at + 1);
        let end = applied_change_spans::string_end(bytes, at)->Ok_0;
        lemma_inner(bytes, end, outer, closers, start, inner);
    } else if bytes[at] == 0x7b {
        assert(all.push(0x7d) =~= outer + closers.push(0x7d));
        lemma_inner(bytes, at + 1, outer, closers.push(0x7d), start, inner);
    } else if bytes[at] == 0x5b {
        assert(all.push(0x5d) =~= outer + closers.push(0x5d));
        lemma_inner(bytes, at + 1, outer, closers.push(0x5d), start, inner);
    } else if bytes[at] == 0x7d || bytes[at] == 0x5d {
        if closers.len() == 1 {
            assert(all.drop_last() =~= outer);
        } else {
            lemma_inner(bytes, at + 1, outer, closers.drop_last(), start, inner);
        }
    } else {
        lemma_inner(bytes, at + 1, outer, closers, start, inner);
    }
}

/// A string or a container in a container is passed over as a whole: what is in
/// it neither opens nor closes anything outside.
pub proof fn values_in_a_container_are_passed_over(
    bytes: Seq<u8>,
    at: int,
    closers: Seq<u8>,
    start: int,
)
    requires
        0 <= at < bytes.len(),
        bytes[at] == 0x22 || bytes[at] == 0x7b || bytes[at] == 0x5b,
        closers.len() > 0,
        applied_change_spans::value_end(bytes, at) is Ok,
    ensures
        applied_change_spans::container_end(bytes, at, closers, start)
            == applied_change_spans::container_end(
            bytes,
            applied_change_spans::value_end(bytes, at)->Ok_0,
            closers,
            start,
        ),
{
    white_space_is_skipped(bytes, at, at);
    if bytes[at] == 0x7b {
        assert(closers.push(0x7d) =~= closers + seq![0x7du8]);
        lemma_inner(bytes, at + 1, closers, seq![0x7du8], start, at);
    } else if bytes[at] == 0x5b {
        assert(closers.push(0x5d) =~= closers + seq![0x5du8]);
        lemma_inner(bytes, at + 1, closers, seq![0x5du8], start, at);
    }
}

/// A bracket that does not match the last that is open is refused.
pub proof fn brackets_match(bytes: Seq<u8>, at: int, closers: Seq<u8>, start: int)
    requires
        0 <= at < bytes.len(),
        bytes[at] == 0x7d || bytes[at] == 0x5d,
        closers.len() > 0,
    ensures
        bytes[at] != closers.last() ==> applied_change_spans::container_end(
            bytes,
            at,
            closers,
            start,
        ) == Err::<int, SpanFault>(SpanFault::MismatchedDelimiter(at)),
        bytes[at] == closers.last() && closers.len() == 1 ==> applied_change_spans::container_end(
            bytes,
            at,
            closers,
            start,
        ) == Ok::<int, SpanFault>(at + 1),
{
}

/// What the members of an object are: each has a string for its key, a colon, a
/// value, and then a comma or the bracket that closes the object. The first
/// begins behind the opening bracket, each other behind the comma of the one
/// before it. Only the last may be without a comma.
pub proof fn members_have_keys_and_values(bytes: Seq<u8>, open: int, i: int)
    requires
        0 <= open,
        applied_change_spans::object_members(bytes, open) is Ok,
        0 <= i < applied_change_spans::object_members(bytes, open)->Ok_0.len(),
    ensures
        ({
            let members = applied_change_spans::object_members(bytes, open)->Ok_0;
            let member = members[i];
            let key_start = applied_change_spans::after_space(bytes, member.prefix_start);
            let key_end = applied_change_spans::string_end(bytes, key_start)->Ok_0;
            let colon = applied_change_spans::after_space(bytes, key_end);
            let next = applied_change_spans::after_space(bytes, member.value_end);
            &&& open < bytes.len() && bytes[open] == 0x7b
            &&& member.prefix_start == if i == 0 {
                open + 1
            } else {
                members[i - 1].comma->0 + 1
            }
            &&& applied_change_spans::string_end(bytes, key_start) is Ok
            &&& applied_change_spans::decoded_json_string(
                decode_utf8(bytes.subrange(key_start, key_end)),
            ) == Ok::<Seq<char>, Seq<char>>(member.key)
            &&& 0 <= colon < bytes.len() && bytes[colon] == 0x3a
            &&& member.value_start == applied_change_spans::after_space(bytes, colon + 1)
            &&& applied_change_spans::value_end(bytes, member.value_start) == Ok::<int, SpanFault>(
                member.value_end,
            )
            &&& 0 <= next < bytes.len()
            &&& member.comma is Some ==> bytes[next] == 0x2c && member.comma == Some(next)
            &&& member.comma is None ==> bytes[next] == 0x7d && i == members.len() - 1
        }),
{
    lemma_members(bytes, open + 1, i);
}

/// The members from a place on.
proof fn lemma_members(bytes: Seq<u8>, at: int, i: int)
    requires
        0 <= at,
        applied_change_spans::members_from(bytes, at) is Ok,
        0 <= i < applied_change_spans::members_from(bytes, at)->Ok_0.len(),
    ensures
        ({
            let members = applied_change_spans::members_from(bytes, at)->Ok_0;
            let member = members[i];
            let key_start = applied_change_spans::after_space(bytes, member.prefix_start);
            let key_end = applied_change_spans::string_end(bytes, key_start)->Ok_0;
            let colon = applied_change_spans::after_space(bytes, key_end);
            let next = applied_change_spans::after_space(bytes, member.value_end);
            &&& member.prefix_start == if i == 0 {
                at
            } else {
                members[i - 1].comma->0 + 1
            }
            &&& applied_change_spans::string_end(bytes, key_start) is Ok
            &&& applied_change_spans::decoded_json_string(
                decode_utf8(bytes.subrange(key_start, key_end)),
            ) == Ok::<Seq<char>, Seq<char>>(member.key)
            &&& 0 <= colon < bytes.len() && bytes[colon] == 0x3a
            &&& member.value_start == applied_change_spans::after_space(bytes, colon + 1)
            &&& applied_change_spans::value_end(bytes, member.value_start) == Ok::<int, SpanFault>(
                member.value_end,
            )
            &&& 0 <= next < bytes.len()
            &&& member.comma is Some ==> bytes[next] == 0x2c && member.comma == Some(next)
            &&& member.comma is None ==> bytes[next] == 0x7d && i == members.len() - 1
        }),
    decreases i,
{
    let members = applied_change_spans::members_from(bytes, at)->Ok_0;
    let first = members[0];
    if first.comma is Some {
        let from = first.comma->0 + 1;
        let rest = applied_change_spans::members_from(bytes, from);
        assert(rest is Ok);
        assert(members =~= seq![first] + rest->Ok_0);
        if i > 0 {
            lemma_members(bytes, from, i - 1);
            assert(members[i] == rest->Ok_0[i - 1]);
            if i > 1 {
                assert(members[i - 1] == rest->Ok_0[i - 2]);
            }
        }
    }
}

} // verus!
