//! What clearing keeps of the changepack logs.

use crate::applied_change_spans;
use crate::applied_change_spans::{MemberSpan, SpanFault};
use crate::clear_update_logs;
use crate::clear_update_logs::{LogBody, LogFate, RewriteView};
use crate::json;
use crate::paths;
use crate::rewritten_logs;
use vstd::prelude::*;
use vstd::utf8::*;

verus! {

proof fn lemma_kept_filter(
    b: Seq<u8>,
    ms: Seq<MemberSpan>,
    applied: Seq<String>,
    k: int,
)
    requires
        0 <= k <= ms.len(),
    ensures
        rewritten_logs::kept_entries(b, ms, applied_change_spans::selection(ms, applied), k)
            == rewritten_logs::entries(b, ms).skip(k).filter(
            |entry: (Seq<char>, Seq<u8>)|
                !(exists|a: int|
                    0 <= a < applied.len() && paths::components((#[trigger] applied[a])@)
                        == paths::components(entry.0)),
        ),
    decreases ms.len() - k,
{
    let is_pending = |entry: (Seq<char>, Seq<u8>)|
        !(exists|a: int|
            0 <= a < applied.len() && paths::components((#[trigger] applied[a])@)
                == paths::components(entry.0));
    let selected = applied_change_spans::selection(ms, applied);
    let all = rewritten_logs::entries(b, ms);
    if k == ms.len() {
        assert(all.skip(k) =~= Seq::empty());
        reveal(Seq::filter);
    } else {
        let first = all[k];
        lemma_kept_filter(b, ms, applied, k + 1);
        assert(all.skip(k) =~= seq![first] + all.skip(k + 1));
        Seq::filter_distributes_over_add(seq![first], all.skip(k + 1), is_pending);
        assert(first.0 == ms[k].key);
        assert(selected[k] == !is_pending(first)) by {
            if selected[k] {
                let a = choose|a: int|
                    0 <= a < applied.len() && paths::same_place(#[trigger] applied[a]@, ms[k].key);
                assert(paths::components(applied[a]@) == paths::components(first.0));
            }
            if !is_pending(first) {
                let a = choose|a: int|
                    0 <= a < applied.len() && paths::components((#[trigger] applied[a])@)
                        == paths::components(first.0);
                assert(paths::same_place(applied[a]@, ms[k].key));
            }
        }
        reveal_with_fuel(Seq::filter, 2);
        assert(seq![first].drop_last() =~= Seq::empty());
        if is_pending(first) {
            assert(seq![first].filter(is_pending) =~= seq![first]);
        } else {
            assert(seq![first].filter(is_pending) =~= Seq::empty());
            assert(seq![first].filter(is_pending) + all.skip(k + 1).filter(is_pending)
                =~= all.skip(k + 1).filter(is_pending));
        }
    }
}

/// The members are selected by their keys alone.
proof fn lemma_selected(ms: Seq<MemberSpan>, applied: Seq<String>)
    ensures
        applied_change_spans::selection(ms, applied).len() == ms.len(),
        forall|i: int|
            0 <= i < ms.len() ==> (#[trigger] applied_change_spans::selection(ms, applied)[i]
                <==> exists|a: int|
                0 <= a < applied.len() && paths::components((#[trigger] applied[a])@)
                    == paths::components(ms[i].key)),
{
    let selected = applied_change_spans::selection(ms, applied);
    assert forall|i: int| 0 <= i < ms.len() implies (#[trigger] selected[i] <==> exists|a: int|
        0 <= a < applied.len() && paths::components((#[trigger] applied[a])@)
            == paths::components(ms[i].key)) by {
        if selected[i] {
            let a = choose|a: int|
                0 <= a < applied.len() && paths::same_place(#[trigger] applied[a]@, ms[i].key);
            assert(paths::components(applied[a]@) == paths::components(ms[i].key));
        }
        if exists|a: int|
            0 <= a < applied.len() && paths::components((#[trigger] applied[a])@)
                == paths::components(ms[i].key) {
            let a = choose|a: int|
                0 <= a < applied.len() && paths::components((#[trigger] applied[a])@)
                    == paths::components(ms[i].key);
            assert(paths::same_place(applied[a]@, ms[i].key));
        }
    }
}

/// The changes of a rewritten log are exactly the changes of the log whose key
/// names no applied path, in their order, each with the bytes of its value. The
/// log may have a comma behind its last change only where one of them stays.
pub proof fn rewritten_log_holds_exactly_the_pending_changes(
    bytes: Seq<u8>,
    applied: Seq<String>,
)
    requires
        applied_change_spans::change_members(bytes) is Ok,
        ({
            let members = applied_change_spans::change_members(bytes)->Ok_0;
            members.len() > 0 && members.last().comma is Some ==> exists|i: int|
                0 <= i < members.len() && !(exists|a: int|
                    0 <= a < applied.len() && paths::components((#[trigger] applied[a])@)
                        == paths::components((#[trigger] members[i]).key))
        }),
    ensures
        ({
            let members = applied_change_spans::change_members(bytes)->Ok_0;
            let out = applied_change_spans::without_applied(bytes, applied)->Ok_0;
            let left = applied_change_spans::object_members(
                out,
                rewritten_logs::changes_member(bytes).value_start,
            );
            &&& applied_change_spans::without_applied(bytes, applied) is Ok
            &&& left is Ok
            &&& left->Ok_0.map_values(
                |m: MemberSpan| (m.key, out.subrange(m.value_start, m.value_end)),
            ) == members.map_values(
                |m: MemberSpan| (m.key, bytes.subrange(m.value_start, m.value_end)),
            ).filter(
                |entry: (Seq<char>, Seq<u8>)|
                    !(exists|a: int|
                        0 <= a < applied.len() && paths::components((#[trigger] applied[a])@)
                            == paths::components(entry.0)),
            )
        }),
{
    let members = applied_change_spans::change_members(bytes)->Ok_0;
    lemma_selected(members, applied);
    if members.len() > 0 && members.last().comma is Some {
        let i = choose|i: int|
            0 <= i < members.len() && !(exists|a: int|
                0 <= a < applied.len() && paths::components((#[trigger] applied[a])@)
                    == paths::components((#[trigger] members[i]).key));
        assert(!applied_change_spans::selection(members, applied)[i]);
    }
    rewritten_logs::unapplied_changes_are_kept(bytes, applied);
    lemma_kept_filter(bytes, members, applied, 0);
    let out = applied_change_spans::without_applied(bytes, applied)->Ok_0;
    let left = applied_change_spans::object_members(
        out,
        rewritten_logs::changes_member(bytes).value_start,
    )->Ok_0;
    let all = members.map_values(
        |m: MemberSpan| (m.key, bytes.subrange(m.value_start, m.value_end)),
    );
    assert(rewritten_logs::entries(bytes, members).skip(0) =~= all);
    assert(rewritten_logs::entries(out, left) =~= left.map_values(
        |m: MemberSpan| (m.key, out.subrange(m.value_start, m.value_end)),
    ));
}


/// What is left of each member: nothing of a selected one; of a kept one that
/// another kept one follows everything up to its comma, with the comma; of the
/// last kept one everything before its comma, or its value where it is the last
/// member.
spec fn pieces(b: Seq<u8>, ms: Seq<MemberSpan>, selected: Seq<bool>) -> Seq<Seq<u8>> {
    Seq::new(
        ms.len(),
        |i: int|
            if selected[i] {
                Seq::empty()
            } else if exists|j: int| i < j < ms.len() && !(#[trigger] selected[j]) {
                b.subrange(ms[i].prefix_start, ms[i].comma->0 + 1)
            } else if i == ms.len() - 1 {
                b.subrange(ms[i].prefix_start, ms[i].value_end)
            } else {
                b.subrange(ms[i].prefix_start, ms[i].comma->0)
            },
    )
}

proof fn lemma_flatten_step(list: Seq<Seq<u8>>, k: int)
    requires
        0 <= k < list.len(),
    ensures
        list.skip(k).flatten() == list[k] + list.skip(k + 1).flatten(),
{
    assert(list.skip(k).drop_first() =~= list.skip(k + 1));
    assert(list.skip(k).first() == list[k]);
}

proof fn lemma_flatten_empty(list: Seq<Seq<u8>>, k: int, to: int)
    requires
        0 <= k <= to <= list.len(),
        forall|i: int| k <= i < to ==> (#[trigger] list[i]).len() == 0,
    ensures
        list.skip(k).flatten() == list.skip(to).flatten(),
    decreases to - k,
{
    if k < to {
        lemma_flatten_step(list, k);
        lemma_flatten_empty(list, k + 1, to);
        assert(list[k] + list.skip(k + 1).flatten() =~= list.skip(k + 1).flatten());
    }
}

proof fn lemma_flatten_end(list: Seq<Seq<u8>>)
    ensures
        list.skip(list.len() as int).flatten() == Seq::<u8>::empty(),
{
    assert(list.skip(list.len() as int) =~= Seq::empty());
}

proof fn lemma_tail_pieces(b: Seq<u8>, ms: Seq<MemberSpan>, selected: Seq<bool>, k: int)
    requires
        applied_change_spans::members_in_line(b, ms),
        selected.len() == ms.len(),
        0 <= k < ms.len(),
        rewritten_logs::starts_clean(selected, k),
    ensures
        rewritten_logs::tail(b, ms, selected, k) == pieces(b, ms, selected).skip(k).flatten()
            + b.subrange(ms.last().value_end, b.len() as int),
    decreases ms.len() - k,
{
    let list = pieces(b, ms, selected);
    let n = ms.len() as int;
    let rest = b.subrange(ms.last().value_end, b.len() as int);
    applied_change_spans::run_end_bounds(selected, k);
    let to = applied_change_spans::run_end(selected, k);
    lemma_flatten_end(list);
    if selected[k] {
        rewritten_logs::lemma_tail_run(b, ms, selected, k);
        assert forall|i: int| k <= i < to implies (#[trigger] list[i]).len() == 0 by {
            assert(selected[i]);
        }
        lemma_flatten_empty(list, k, to);
        if to < n {
            lemma_tail_pieces(b, ms, selected, to);
        } else {
            assert(list.skip(to) =~= list.skip(list.len() as int));
            assert(Seq::<u8>::empty() + rest =~= rest);
        }
    } else if k == n - 1 {
        lemma_flatten_step(list, k);
        assert(list.skip(k + 1) =~= list.skip(list.len() as int));
        assert(applied_change_spans::removed_spans(ms, selected, k + 1)
            =~= Seq::<(int, int)>::empty());
        assert(applied_change_spans::removed_spans(ms, selected, k)
            =~= Seq::<(int, int)>::empty());
        assert(list[k] == b.subrange(ms[k].prefix_start, ms[k].value_end));
        assert(b.subrange(ms[k].prefix_start, b.len() as int) =~= list[k] + Seq::<u8>::empty()
            + rest);
    } else if rewritten_logs::starts_clean(selected, k + 1) {
        applied_change_spans::run_end_bounds(selected, k + 1);
        if selected[k + 1] {
            assert(!selected[applied_change_spans::run_end(selected, k + 1)]);
        }
        assert(exists|j: int| k < j < ms.len() && !(#[trigger] selected[j]));
        lemma_flatten_step(list, k);
        lemma_tail_pieces(b, ms, selected, k + 1);
        rewritten_logs::lemma_tail_step(b, ms, selected, k);
        assert(ms[k + 1].prefix_start == ms[k].comma->0 + 1);
        assert(list[k] == b.subrange(ms[k].prefix_start, ms[k + 1].prefix_start));
        assert(list[k] + (list.skip(k + 1).flatten() + rest) =~= list[k] + list.skip(
            k + 1,
        ).flatten() + rest);
    } else {
        applied_change_spans::run_end_bounds(selected, k + 1);
        rewritten_logs::lemma_tail_last(b, ms, selected, k);
        assert forall|i: int| k + 1 <= i < n implies (#[trigger] list[i]).len() == 0 by {
            assert(selected[i]);
        }
        assert(!(exists|j: int| k < j < ms.len() && !(#[trigger] selected[j])));
        lemma_flatten_step(list, k);
        lemma_flatten_empty(list, k + 1, n);
        assert(list[k] == b.subrange(ms[k].prefix_start, ms[k].comma->0));
        assert(list[k] + Seq::<u8>::empty() =~= list[k]);
    }
}

/// A rewritten log is the log without the applied changes, byte for byte: what
/// stands before the first change; each change that is not applied, with all
/// that stands before its key, up to and with its comma where another such
/// change follows, else up to its comma, or to the end of its value where no
/// change follows at all; and everything behind the value of the last change.
pub proof fn rewritten_log_keeps_every_other_byte(bytes: Seq<u8>, applied: Seq<String>)
    requires
        applied_change_spans::change_members(bytes) is Ok,
        applied_change_spans::change_members(bytes)->Ok_0.len() > 0,
    ensures
        ({
            let ms = applied_change_spans::change_members(bytes)->Ok_0;
            let is_pending = |i: int|
                0 <= i < ms.len() && !(exists|a: int|
                    0 <= a < applied.len() && paths::components((#[trigger] applied[a])@)
                        == paths::components(ms[i].key));
            applied_change_spans::without_applied(bytes, applied) == Ok::<Seq<u8>, SpanFault>(
                bytes.subrange(0, ms[0].prefix_start) + Seq::new(
                    ms.len(),
                    |i: int|
                        if !is_pending(i) {
                            Seq::<u8>::empty()
                        } else if exists|j: int| i < j && #[trigger] is_pending(j) {
                            bytes.subrange(ms[i].prefix_start, ms[i].comma->0 + 1)
                        } else if i == ms.len() - 1 {
                            bytes.subrange(ms[i].prefix_start, ms[i].value_end)
                        } else {
                            bytes.subrange(ms[i].prefix_start, ms[i].comma->0)
                        },
                ).flatten() + bytes.subrange(ms.last().value_end, bytes.len() as int),
            )
        }),
{
    let ms = applied_change_spans::change_members(bytes)->Ok_0;
    let selected = applied_change_spans::selection(ms, applied);
    let is_pending = |i: int|
        0 <= i < ms.len() && !(exists|a: int|
            0 <= a < applied.len() && paths::components((#[trigger] applied[a])@)
                == paths::components(ms[i].key));
    let parts = Seq::new(
        ms.len(),
        |i: int|
            if !is_pending(i) {
                Seq::<u8>::empty()
            } else if exists|j: int| i < j && #[trigger] is_pending(j) {
                bytes.subrange(ms[i].prefix_start, ms[i].comma->0 + 1)
            } else if i == ms.len() - 1 {
                bytes.subrange(ms[i].prefix_start, ms[i].value_end)
            } else {
                bytes.subrange(ms[i].prefix_start, ms[i].comma->0)
            },
    );
    let open = rewritten_logs::changes_member(bytes).value_start;
    let at = open + 1;
    rewritten_logs::lemma_changes_in_line(bytes);
    lemma_selected(ms, applied);
    assert forall|i: int| 0 <= i < ms.len() implies #[trigger] parts[i] == pieces(
        bytes,
        ms,
        selected,
    )[i] by {
        assert(is_pending(i) == !selected[i]);
        if exists|j: int| i < j && #[trigger] is_pending(j) {
            let j = choose|j: int| i < j && #[trigger] is_pending(j);
            assert(!selected[j]);
        }
        if exists|j: int| i < j < ms.len() && !(#[trigger] selected[j]) {
            let j = choose|j: int| i < j < ms.len() && !(#[trigger] selected[j]);
            assert(is_pending(j));
        }
    }
    assert(parts =~= pieces(bytes, ms, selected));
    assert(parts.skip(0) =~= parts);
    lemma_tail_pieces(bytes, ms, selected, 0);
    let spans = applied_change_spans::removed_spans(ms, selected, 0);
    let rest = rewritten_logs::tail(bytes, ms, selected, 0);
    rewritten_logs::lemma_first_span(bytes, ms, selected, 0);
    let out = applied_change_spans::without_applied(bytes, applied)->Ok_0;
    if spans.len() == 0 {
        assert(out =~= bytes.subrange(0, at) + rest);
    } else {
        assert(bytes.subrange(0, spans[0].0) =~= bytes.subrange(0, at) + bytes.subrange(
            at,
            spans[0].0,
        ));
        assert(out =~= bytes.subrange(0, at) + rest);
    }
    assert(out =~= bytes.subrange(0, at) + parts.flatten() + bytes.subrange(
        ms.last().value_end,
        bytes.len() as int,
    ));
}

/// The changes of a log are those of the last `changes` field of its root
/// object.
pub proof fn changes_are_those_of_the_last_field(bytes: Seq<u8>, c: int)
    requires
        rewritten_logs::root_members(bytes) is Ok,
        0 <= c < rewritten_logs::root_members(bytes)->Ok_0.len(),
        rewritten_logs::root_members(bytes)->Ok_0[c].key == "changes"@,
        forall|j: int|
            c < j < rewritten_logs::root_members(bytes)->Ok_0.len() ==> (
            #[trigger] rewritten_logs::root_members(bytes)->Ok_0[j]).key != "changes"@,
    ensures
        applied_change_spans::change_members(bytes) == applied_change_spans::object_members(
            bytes,
            rewritten_logs::root_members(bytes)->Ok_0[c].value_start,
        ),
{
    rewritten_logs::lemma_last_named_is(
        rewritten_logs::root_members(bytes)->Ok_0,
        "changes"@,
        c,
    );
}

/// What becomes of a log that is JSON and holds a `changes` object: it is removed
/// exactly where the key of every change names an applied path, it stays as it is
/// exactly where there is a change and no key names one, and else it is rewritten,
/// or refused where that is not possible.
pub proof fn logs_are_cleared_by_their_keys(
    content: Seq<char>,
    applied: Seq<String>,
    nodes: Map<Seq<Seq<char>>, json::JsonKind>,
)
    requires
        json::parsed_value(content) == Ok::<Map<Seq<Seq<char>>, json::JsonKind>, Seq<char>>(nodes),
        nodes.contains_key(seq!["changes"@]),
        nodes[seq!["changes"@]] is Object,
    ensures
        ({
            let is_applied = |key: Seq<char>|
                exists|a: int|
                    0 <= a < applied.len() && paths::components((#[trigger] applied[a])@)
                        == paths::components(key);
            let fate = clear_update_logs::log_fate(content, applied);
            &&& fate is Remove <==> forall|path: Seq<Seq<char>>| #[trigger]
                nodes.contains_key(path) && path.len() == 2 && path[0] == "changes"@
                    ==> is_applied(path[1])
            &&& fate is Keep <==> (exists|path: Seq<Seq<char>>| #[trigger]
                nodes.contains_key(path) && path.len() == 2 && path[0] == "changes"@)
                && forall|path: Seq<Seq<char>>| #[trigger]
                nodes.contains_key(path) && path.len() == 2 && path[0] == "changes"@
                    ==> !is_applied(path[1])
            &&& fate !is Unparsable
            &&& fate matches LogFate::Rewrite(out) ==> applied_change_spans::without_applied(
                encode_utf8(content),
                applied,
            ) == Ok::<Seq<u8>, SpanFault>(out)
            &&& fate matches LogFate::Unwritable(fault) ==> applied_change_spans::without_applied(
                encode_utf8(content),
                applied,
            ) == Err::<Seq<u8>, SpanFault>(fault)
        }),
{
    let is_applied = |key: Seq<char>|
        exists|a: int|
            0 <= a < applied.len() && paths::components((#[trigger] applied[a])@)
                == paths::components(key);
    let changes = json::member(nodes, "changes"@);
    let keys = json::member_keys(changes);
    assert(seq!["changes"@] + Seq::<Seq<char>>::empty() =~= seq!["changes"@]);
    assert(json::is_object(changes));
    assert forall|key: Seq<char>| #[trigger] keys.contains(key) == nodes.contains_key(
        seq!["changes"@] + seq![key],
    ) by {}
    assert forall|path: Seq<Seq<char>>| #[trigger]
        nodes.contains_key(path) && path.len() == 2 && path[0]
            == "changes"@ implies keys.contains(path[1]) by {
        assert(seq!["changes"@] + seq![path[1]] =~= path);
    }
    assert forall|key: Seq<char>| #[trigger] paths::lists_place(applied, key) == is_applied(
        key,
    ) by {
        if paths::lists_place(applied, key) {
            let a = choose|a: int|
                0 <= a < applied.len() && paths::same_place(#[trigger] applied[a]@, key);
            assert(paths::components(applied[a]@) == paths::components(key));
        }
        if is_applied(key) {
            let a = choose|a: int|
                0 <= a < applied.len() && paths::components((#[trigger] applied[a])@)
                    == paths::components(key);
            assert(paths::same_place(applied[a]@, key));
        }
    }
    assert forall|key: Seq<char>| #[trigger] keys.contains(key) implies {
        let path = seq!["changes"@] + seq![key];
        nodes.contains_key(path) && path.len() == 2 && path[0] == "changes"@ && path[1] == key
    } by {}
}

/// A log without a `changes` object is left alone, and one that is not JSON is
/// refused with the message of the parser.
pub proof fn other_logs_are_left_alone(content: Seq<char>, applied: Seq<String>)
    ensures
        match json::parsed_value(content) {
            Err(message) => clear_update_logs::log_fate(content, applied) == LogFate::Unparsable(
                message,
            ),
            Ok(nodes) => !nodes.contains_key(seq!["changes"@]) || !(nodes[seq!["changes"@]] is Object)
                ==> clear_update_logs::log_fate(content, applied) is Keep,
        },
{
    assert(seq!["changes"@] + Seq::<Seq<char>>::empty() =~= seq!["changes"@]);
}

/// The logs that are removed and rewritten are those, in order, for which that
/// is decided, one by one.
pub proof fn each_log_is_cleared_for_itself(logs: Seq<LogBody>, applied: Seq<String>)
    ensures
        clear_update_logs::removed_logs(logs, applied) == logs.filter(
            |log: LogBody| clear_update_logs::log_fate(log.content@, applied) is Remove,
        ).map_values(|log: LogBody| log.path@),
        clear_update_logs::rewritten_logs(logs, applied) == logs.filter(
            |log: LogBody| clear_update_logs::log_fate(log.content@, applied) is Rewrite,
        ).map_values(
            |log: LogBody|
                RewriteView {
                    path: log.path@,
                    bytes: clear_update_logs::log_fate(log.content@, applied)->Rewrite_0,
                },
        ),
    decreases logs.len(),
{
    let removed = |log: LogBody| clear_update_logs::log_fate(log.content@, applied) is Remove;
    let rewritten = |log: LogBody| clear_update_logs::log_fate(log.content@, applied) is Rewrite;
    let path = |log: LogBody| log.path@;
    let view = |log: LogBody|
        RewriteView {
            path: log.path@,
            bytes: clear_update_logs::log_fate(log.content@, applied)->Rewrite_0,
        };
    reveal(Seq::filter);
    if logs.len() == 0 {
        assert(logs.filter(removed).map_values(path) =~= Seq::empty());
        assert(logs.filter(rewritten).map_values(view) =~= Seq::empty());
    } else {
        let less = logs.drop_last();
        let last = logs.last();
        each_log_is_cleared_for_itself(less, applied);
        if removed(last) {
            assert(logs.filter(removed) == less.filter(removed).push(last));
            assert(less.filter(removed).push(last).map_values(path) =~= less.filter(
                removed,
            ).map_values(path).push(path(last)));
        }
        if rewritten(last) {
            assert(logs.filter(rewritten) == less.filter(rewritten).push(last));
            assert(less.filter(rewritten).push(last).map_values(view) =~= less.filter(
                rewritten,
            ).map_values(view).push(view(last)));
        }
    }
}

} // verus!
