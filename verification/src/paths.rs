//! Slash-separated paths as text.
//!
//! A path is kept as the text it was written in. Two texts name the same path
//! when they have the same components, so `a//b`, `a/./b/` and `a/b` are one
//! path while `./a/b` is another.

use crate::ordering;
use crate::text;
use crate::text::{chars_of, same_text};
use vstd::prelude::*;
use vstd::string::*;

verus! {

/// The views of a list of texts.
pub open spec fn views(texts: Seq<String>) -> Seq<Seq<char>> {
    texts.map_values(|t: String| t@)
}

/// The pieces of `text` between slashes; empty pieces are kept.
pub open spec fn slash_pieces(text: Seq<char>) -> Seq<Seq<char>>
    decreases text.len(),
{
    if text.len() == 0 {
        seq![Seq::<char>::empty()]
    } else if text.last() == '/' {
        slash_pieces(text.drop_last()).push(Seq::<char>::empty())
    } else {
        let pieces = slash_pieces(text.drop_last());
        pieces.drop_last().push(pieces.last().push(text.last()))
    }
}

/// A piece that is a component on its own: not empty and not `.`.
pub open spec fn is_step(piece: Seq<char>) -> bool {
    piece.len() > 0 && piece != seq!['.']
}

/// What comes before the first step: the root of an absolute path, or the
/// leading `.` of a path that starts with it.
pub open spec fn path_anchor(text: Seq<char>) -> Seq<Seq<char>> {
    if text.len() > 0 && text[0] == '/' {
        seq![seq!['/']]
    } else if slash_pieces(text)[0] == seq!['.'] {
        seq![seq!['.']]
    } else {
        Seq::empty()
    }
}

/// The components of a path: its anchor, then its steps.
pub open spec fn components(text: Seq<char>) -> Seq<Seq<char>> {
    path_anchor(text) + slash_pieces(text).filter(|piece: Seq<char>| is_step(piece))
}

/// Whether two texts name the same path.
pub open spec fn same_place(left: Seq<char>, right: Seq<char>) -> bool {
    components(left) == components(right)
}

/// A component list: every entry but the first is a step, the first may also
/// be an anchor, and no step holds a slash.
pub open spec fn is_component_list(parts: Seq<Seq<char>>) -> bool {
    &&& forall|i: int| 0 < i < parts.len() ==> is_step(#[trigger] parts[i])
    &&& forall|i: int| 0 < i < parts.len() ==> !(#[trigger] parts[i]).contains('/')
    &&& parts.len() > 0 ==> parts[0] == seq!['/'] || (parts[0].len() > 0 && !parts[0].contains('/'))
}

/// The parts with a slash between each two.
pub open spec fn joined(parts: Seq<Seq<char>>) -> Seq<char>
    decreases parts.len(),
{
    if parts.len() == 0 {
        Seq::empty()
    } else if parts.len() == 1 {
        parts[0]
    } else {
        joined(parts.drop_last()) + seq!['/'] + parts.last()
    }
}

/// The plain way to write the path that has the components `parts`.
pub open spec fn rendered(parts: Seq<Seq<char>>) -> Seq<char> {
    if parts.len() > 0 && parts[0] == seq!['/'] {
        seq!['/'] + joined(parts.drop_first())
    } else {
        joined(parts)
    }
}

proof fn lemma_pieces_nonempty(text: Seq<char>)
    ensures
        slash_pieces(text).len() > 0,
    decreases text.len(),
{
    if text.len() > 0 {
        lemma_pieces_nonempty(text.drop_last());
    }
}

proof fn lemma_pieces_append(a: Seq<char>, b: Seq<char>)
    ensures
        slash_pieces(a + seq!['/'] + b) == slash_pieces(a) + slash_pieces(b),
    decreases b.len(),
{
    let whole = a + seq!['/'] + b;
    if b.len() == 0 {
        assert(whole =~= a.push('/'));
        assert(whole.drop_last() =~= a);
        assert(slash_pieces(a).push(Seq::<char>::empty()) =~= slash_pieces(a) + slash_pieces(b));
    } else {
        let shorter = a + seq!['/'] + b.drop_last();
        assert(whole.drop_last() =~= shorter);
        assert(whole.last() == b.last());
        lemma_pieces_append(a, b.drop_last());
        lemma_pieces_nonempty(b.drop_last());
        let pa = slash_pieces(a);
        let pb = slash_pieces(b.drop_last());
        if b.last() == '/' {
            assert((pa + pb).push(Seq::<char>::empty()) =~= pa + pb.push(Seq::<char>::empty()));
        } else {
            assert((pa + pb).last() == pb.last());
            assert((pa + pb).drop_last().push(pb.last().push(b.last())) =~= pa + pb.drop_last().push(
                pb.last().push(b.last()),
            ));
        }
    }
}

proof fn lemma_pieces_of_plain(a: Seq<char>)
    requires
        !a.contains('/'),
    ensures
        slash_pieces(a) == seq![a],
    decreases a.len(),
{
    if a.len() == 0 {
        assert(a =~= Seq::<char>::empty());
    } else {
        assert(a[a.len() - 1] == a.last());
        assert forall|c: char| a.drop_last().contains(c) implies a.contains(c) by {
            let k = choose|k: int| 0 <= k < a.drop_last().len() && a.drop_last()[k] == c;
            assert(a[k] == c);
        }
        lemma_pieces_of_plain(a.drop_last());
        let pieces = slash_pieces(a.drop_last());
        assert(pieces.last() == a.drop_last());
        assert(pieces.drop_last().push(pieces.last().push(a.last())) =~= seq![a]) by {
            assert(a.drop_last().push(a.last()) =~= a);
        }
    }
}

proof fn lemma_pieces_of_joined(parts: Seq<Seq<char>>)
    requires
        parts.len() > 0,
        forall|i: int| 0 <= i < parts.len() ==> !(#[trigger] parts[i]).contains('/'),
    ensures
        slash_pieces(joined(parts)) == parts,
    decreases parts.len(),
{
    if parts.len() == 1 {
        lemma_pieces_of_plain(parts[0]);
        assert(seq![parts[0]] =~= parts);
    } else {
        lemma_pieces_of_joined(parts.drop_last());
        lemma_pieces_append(joined(parts.drop_last()), parts.last());
        assert(parts[parts.len() - 1] == parts.last());
        lemma_pieces_of_plain(parts.last());
        assert(parts.drop_last() + seq![parts.last()] =~= parts);
    }
}

proof fn lemma_filter_all<T>(s: Seq<T>, f: spec_fn(T) -> bool)
    requires
        forall|i: int| 0 <= i < s.len() ==> f(#[trigger] s[i]),
    ensures
        s.filter(f) == s,
    decreases s.len(),
{
    reveal(Seq::filter);
    if s.len() > 0 {
        assert(forall|i: int|
            0 <= i < s.drop_last().len() ==> s.drop_last()[i] == #[trigger] s[i]);
        lemma_filter_all(s.drop_last(), f);
        assert(s[s.len() - 1] == s.last());
        assert(s.drop_last().push(s.last()) =~= s);
    } else {
        assert(s.filter(f) =~= s);
    }
}

proof fn lemma_filter_skip_first<T>(s: Seq<T>, f: spec_fn(T) -> bool)
    requires
        s.len() > 0,
        !f(s[0]),
    ensures
        s.filter(f) == s.drop_first().filter(f),
    decreases s.len(),
{
    reveal(Seq::filter);
    if s.len() == 1 {
        assert(s.drop_last() =~= Seq::<T>::empty());
        assert(s.drop_first() =~= Seq::<T>::empty());
    } else {
        lemma_filter_skip_first(s.drop_last(), f);
        assert(s.drop_last().drop_first() =~= s.drop_first().drop_last());
        assert(s.last() == s.drop_first().last());
    }
}

proof fn lemma_joined_first(parts: Seq<Seq<char>>)
    requires
        parts.len() > 0,
        parts[0].len() > 0,
    ensures
        joined(parts).len() > 0,
        joined(parts)[0] == parts[0][0],
    decreases parts.len(),
{
    if parts.len() > 1 {
        lemma_joined_first(parts.drop_last());
    }
}

/// Writing a path out and reading its components back gives the same
/// components.
pub proof fn rendered_components(parts: Seq<Seq<char>>)
    requires
        is_component_list(parts),
    ensures
        components(rendered(parts)) == parts,
{
    let step = |piece: Seq<char>| is_step(piece);
    let text = rendered(parts);
    if parts.len() == 0 {
        assert(text =~= Seq::<char>::empty());
        assert(slash_pieces(text) =~= seq![Seq::<char>::empty()]);
        lemma_filter_skip_first(slash_pieces(text), step);
        assert(slash_pieces(text).drop_first() =~= Seq::<Seq<char>>::empty());
        reveal(Seq::filter);
        assert(slash_pieces(text)[0].len() == 0);
        assert(seq!['.'].len() == 1);
        assert(components(text) =~= parts);
    } else if parts[0] == seq!['/'] {
        let rest = parts.drop_first();
        assert(text[0] == '/');
        assert(text =~= Seq::<char>::empty() + seq!['/'] + joined(rest));
        lemma_pieces_append(Seq::<char>::empty(), joined(rest));
        let pieces = slash_pieces(text);
        assert(pieces[0] == Seq::<char>::empty());
        lemma_filter_skip_first(pieces, step);
        if rest.len() == 0 {
            assert(joined(rest) =~= Seq::<char>::empty());
            assert(pieces.drop_first() =~= seq![Seq::<char>::empty()]);
            lemma_filter_skip_first(pieces.drop_first(), step);
            assert(pieces.drop_first().drop_first() =~= Seq::<Seq<char>>::empty());
            reveal(Seq::filter);
            assert(components(text) =~= parts);
        } else {
            assert forall|i: int| 0 <= i < rest.len() implies !(#[trigger] rest[i]).contains('/')
                && step(rest[i]) by {
                assert(rest[i] == parts[i + 1]);
            }
            lemma_pieces_of_joined(rest);
            assert(pieces.drop_first() =~= rest);
            lemma_filter_all(rest, step);
            assert(components(text) =~= parts);
        }
    } else {
        assert forall|i: int| 0 <= i < parts.len() implies !(#[trigger] parts[i]).contains('/') by {
            if i > 0 {
            }
        }
        lemma_pieces_of_joined(parts);
        lemma_joined_first(parts);
        assert(parts[0].contains(parts[0][0]));
        assert(text[0] != '/');
        if parts[0] == seq!['.'] {
            let rest = parts.drop_first();
            lemma_filter_skip_first(parts, step);
            assert forall|i: int| 0 <= i < rest.len() implies step(#[trigger] rest[i]) by {
                assert(rest[i] == parts[i + 1]);
            }
            lemma_filter_all(rest, step);
            assert(components(text) =~= parts);
        } else {
            assert(is_step(parts[0]));
            lemma_filter_all(parts, step);
            assert(components(text) =~= parts);
        }
    }
}

proof fn lemma_pieces_have_no_slash(text: Seq<char>)
    ensures
        forall|i: int|
            0 <= i < slash_pieces(text).len() ==> !(#[trigger] slash_pieces(text)[i]).contains('/'),
    decreases text.len(),
{
    if text.len() > 0 {
        lemma_pieces_have_no_slash(text.drop_last());
        lemma_pieces_nonempty(text.drop_last());
        let before = slash_pieces(text.drop_last());
        let after = slash_pieces(text);
        assert forall|i: int| 0 <= i < after.len() implies !(#[trigger] after[i]).contains('/') by {
            if i < before.len() - 1 {
                assert(after[i] == before[i]);
            } else if text.last() != '/' {
                assert(before[before.len() - 1] == before.last());
                if after[i].contains('/') {
                    let k = choose|k: int| 0 <= k < after[i].len() && after[i][k] == '/';
                    assert(before.last()[k] == '/');
                    assert(before.last().contains('/'));
                }
            } else if i < before.len() {
                assert(after[i] == before[i]);
            }
        }
    }
}

proof fn lemma_filter_members<T>(s: Seq<T>, f: spec_fn(T) -> bool)
    ensures
        forall|i: int|
            0 <= i < s.filter(f).len() ==> f(#[trigger] s.filter(f)[i]) && s.contains(
                s.filter(f)[i],
            ),
    decreases s.len(),
{
    reveal(Seq::filter);
    if s.len() > 0 {
        lemma_filter_members(s.drop_last(), f);
        let short = s.drop_last().filter(f);
        assert forall|i: int| 0 <= i < s.filter(f).len() implies f(#[trigger] s.filter(f)[i])
            && s.contains(s.filter(f)[i]) by {
            if i < short.len() {
                assert(s.filter(f)[i] == short[i]);
                let k = choose|k: int| 0 <= k < s.drop_last().len() && s.drop_last()[k] == short[i];
                assert(s[k] == short[i]);
            } else {
                assert(s[s.len() - 1] == s.last());
            }
        }
    }
}

/// The components of any text are a component list.
pub proof fn components_are_component_list(text: Seq<char>)
    ensures
        is_component_list(components(text)),
{
    let step = |piece: Seq<char>| is_step(piece);
    let pieces = slash_pieces(text);
    let steps = pieces.filter(step);
    lemma_pieces_have_no_slash(text);
    lemma_filter_members(pieces, step);
    let parts = components(text);
    assert forall|i: int| 0 <= i < steps.len() implies is_step(#[trigger] steps[i])
        && !steps[i].contains('/') by {
        assert(step(steps[i]));
    }
    let n = path_anchor(text).len() as int;
    assert forall|i: int| 0 < i < parts.len() implies is_step(#[trigger] parts[i])
        && !parts[i].contains('/') by {
        assert(parts[i] == steps[i - n]);
    }
    if parts.len() > 0 && n == 0 {
        assert(parts[0] == steps[0]);
    }
    assert(!seq!['.'].contains('/'));
}

fn slash_pieces_of(text: &str) -> (pieces: Vec<String>)
    ensures
        views(pieces@) == slash_pieces(text@),
        pieces.len() > 0,
{
    let chars: Vec<char> = chars_of(text);
    let mut pieces: Vec<String> = Vec::new();
    let mut piece: String = String::new();
    let mut i: usize = 0;
    proof {
        assert(chars@.take(0) =~= Seq::<char>::empty());
        assert(views(pieces@).push(piece@) =~= seq![Seq::<char>::empty()]);
    }
    while i < chars.len()
        invariant
            i <= chars.len(),
            chars@ == text@,
            views(pieces@).push(piece@) == slash_pieces(chars@.take(i as int)),
        decreases chars.len() - i,
    {
        let c: char = chars[i];
        proof {
            let shorter = chars@.take(i as int);
            let longer = chars@.take(i as int + 1);
            assert(longer.drop_last() =~= shorter);
            assert(longer.last() == c);
            assert(views(pieces@).push(piece@).drop_last() =~= views(pieces@));
        }
        if c == '/' {
            let ghost before = views(pieces@).push(piece@);
            let ghost old_pieces = pieces@;
            pieces.push(piece);
            piece = String::new();
            proof {
                assert(views(pieces@) =~= before);
                assert(views(pieces@).push(piece@) =~= before.push(Seq::<char>::empty()));
            }
        } else {
            piece.push(c);
        }
        i = i + 1;
    }
    let ghost all = views(pieces@).push(piece@);
    pieces.push(piece);
    proof {
        assert(chars@.take(i as int) =~= text@);
        assert(views(pieces@) =~= all);
    }
    pieces
}

/// The components of the path written as `text`.
pub fn components_of(text: &str) -> (parts: Vec<String>)
    ensures
        views(parts@) == components(text@),
{
    let pieces: Vec<String> = slash_pieces_of(text);
    let mut parts: Vec<String> = Vec::new();
    let chars: Vec<char> = chars_of(text);
    proof {
        reveal_strlit("/");
        reveal_strlit(".");
        assert("/"@ =~= seq!['/']);
        assert("."@ =~= seq!['.']);
    }
    if chars.len() > 0 && chars[0] == '/' {
        parts.push("/".to_string());
    } else if same_text(pieces[0].as_str(), ".") {
        proof {
            assert(pieces@[0]@ == views(pieces@)[0]);
        }
        parts.push(".".to_string());
    } else {
        proof {
            assert(pieces@[0]@ == views(pieces@)[0]);
        }
    }
    let ghost step = |piece: Seq<char>| is_step(piece);
    let ghost all = slash_pieces(text@);
    let ghost anchor = path_anchor(text@);
    proof {
        assert(views(parts@) =~= anchor);
        assert(all.take(0).filter(step) =~= Seq::<Seq<char>>::empty()) by {
            assert(all.take(0) =~= Seq::<Seq<char>>::empty());
            reveal(Seq::filter);
        }
    }
    let mut i: usize = 0;
    while i < pieces.len()
        invariant
            i <= pieces.len(),
            views(pieces@) == all,
            "."@ == seq!['.'],
            step == (|piece: Seq<char>| is_step(piece)),
            views(parts@) == anchor + all.take(i as int).filter(step),
        decreases pieces.len() - i,
    {
        proof {
            assert(pieces@[i as int]@ == all[i as int]);
            let longer = all.take(i as int + 1);
            assert(longer.drop_last() =~= all.take(i as int));
            assert(longer.last() == all[i as int]);
            reveal(Seq::filter);
        }
        let ghost before = views(parts@);
        if !pieces[i].as_str().is_empty() && !same_text(pieces[i].as_str(), ".") {
            let piece: String = pieces[i].clone();
            parts.push(piece);
            proof {
                assert(views(parts@) =~= before.push(all[i as int]));
                assert(anchor + all.take(i as int).filter(step).push(all[i as int]) =~= before.push(
                    all[i as int],
                ));
            }
        }
        i = i + 1;
    }
    proof {
        assert(all.take(i as int) =~= all);
    }
    parts
}

/// Whether `left` and `right` name the same path.
pub fn same_path(left: &str, right: &str) -> (same: bool)
    ensures
        same == same_place(left@, right@),
{
    let a: Vec<String> = components_of(left);
    let b: Vec<String> = components_of(right);
    if a.len() != b.len() {
        proof {
            assert(views(a@).len() != views(b@).len());
        }
        return false;
    }
    let mut i: usize = 0;
    while i < a.len()
        invariant
            i <= a.len() == b.len(),
            views(a@) == components(left@),
            views(b@) == components(right@),
            forall|k: int| 0 <= k < i ==> views(a@)[k] == views(b@)[k],
        decreases a.len() - i,
    {
        if !same_text(a[i].as_str(), b[i].as_str()) {
            proof {
                assert(views(a@)[i as int] != views(b@)[i as int]);
            }
            return false;
        }
        i = i + 1;
    }
    proof {
        assert(views(a@) =~= views(b@));
    }
    true
}

/// The paths named by `places`, as component lists.
pub open spec fn place_set(places: Seq<String>) -> Set<Seq<Seq<char>>> {
    Set::new(
        |at: Seq<Seq<char>>|
            exists|i: int| 0 <= i < places.len() && components((#[trigger] places[i])@) == at,
    )
}

/// No two of `places` name the same path.
pub open spec fn distinct_paths(places: Seq<String>) -> bool {
    forall|i: int, j: int|
        0 <= i < j < places.len() ==> components((#[trigger] places[i])@) != components(
            (#[trigger] places[j])@,
        )
}

/// One more path adds its place.
pub proof fn place_set_push(places: Seq<String>, path: String)
    ensures
        place_set(places.push(path)) == place_set(places).insert(components(path@)),
{
    let after = places.push(path);
    assert forall|at: Seq<Seq<char>>| place_set(after).contains(at) == place_set(places).insert(
        components(path@),
    ).contains(at) by {
        if place_set(places).contains(at) {
            let i = choose|i: int|
                0 <= i < places.len() && components((#[trigger] places[i])@) == at;
            assert(after[i] == places[i]);
        }
        if place_set(after).contains(at) {
            let i = choose|i: int| 0 <= i < after.len() && components((#[trigger] after[i])@) == at;
            if i < places.len() {
                assert(places[i] == after[i]);
            }
        }
        assert(after[places.len() as int] == path);
    }
    assert(place_set(after) =~= place_set(places).insert(components(path@)));
}

/// How many entries of `list` are not in `held`.
pub open spec fn places_missing(list: Seq<Seq<Seq<char>>>, held: Set<Seq<Seq<char>>>) -> nat
    decreases list.len(),
{
    if list.len() == 0 {
        0
    } else {
        places_missing(list.drop_last(), held) + if held.contains(list.last()) {
            0nat
        } else {
            1nat
        }
    }
}

/// Holding one more place leaves no more missing, and fewer where it was
/// missing.
pub proof fn places_missing_shrinks(
    list: Seq<Seq<Seq<char>>>,
    held: Set<Seq<Seq<char>>>,
    at: Seq<Seq<char>>,
)
    ensures
        places_missing(list, held.insert(at)) <= places_missing(list, held),
        list.contains(at) && !held.contains(at) ==> places_missing(list, held.insert(at))
            < places_missing(list, held),
    decreases list.len(),
{
    if list.len() > 0 {
        places_missing_shrinks(list.drop_last(), held, at);
        if list.contains(at) && list.last() != at {
            let i = list.index_of(at);
            assert(list.drop_last()[i] == at);
        }
    }
}

/// A copy of a list of texts.
pub fn copy_texts(list: &Vec<String>) -> (copy: Vec<String>)
    ensures
        copy@ == list@,
{
    let mut copy: Vec<String> = Vec::new();
    let mut i: usize = 0;
    while i < list.len()
        invariant
            i <= list.len(),
            copy@ == list@.take(i as int),
        decreases list.len() - i,
    {
        copy.push(list[i].clone());
        proof {
            assert(copy@ =~= list@.take(i as int + 1));
        }
        i = i + 1;
    }
    proof {
        assert(copy@ =~= list@);
    }
    copy
}

/// Whether one of `places` names the same path as `path`.
pub open spec fn lists_place(places: Seq<String>, path: Seq<char>) -> bool {
    exists|i: int| 0 <= i < places.len() && same_place(#[trigger] places[i]@, path)
}

/// Whether `places` holds the path named by `path`.
pub fn holds_path(places: &Vec<String>, path: &str) -> (held: bool)
    ensures
        held == lists_place(places@, path@),
        held == place_set(places@).contains(components(path@)),
{
    let mut i: usize = 0;
    while i < places.len()
        invariant
            i <= places.len(),
            forall|k: int| 0 <= k < i ==> !same_place(#[trigger] places@[k]@, path@),
        decreases places.len() - i,
    {
        if same_path(places[i].as_str(), path) {
            return true;
        }
        i = i + 1;
    }
    false
}

/// The path with every backslash written as a slash.
pub open spec fn with_slashes(text: Seq<char>) -> Seq<char> {
    text.map_values(|c: char| if c == '\\' { '/' } else { c })
}

/// The text of a path with backslashes turned into slashes.
pub fn normalize_path_separators_of(path: &str) -> (text: String)
    ensures
        text@ == with_slashes(path@),
{
    let chars: Vec<char> = chars_of(path);
    let mut text: String = String::new();
    let mut i: usize = 0;
    while i < chars.len()
        invariant
            i <= chars.len(),
            chars@ == path@,
            text@ == with_slashes(path@.take(i as int)),
        decreases chars.len() - i,
    {
        let c: char = chars[i];
        let ghost before = text@;
        text.push(if c == '\\' { '/' } else { c });
        proof {
            assert(text@ =~= with_slashes(path@.take(i as int + 1)));
        }
        i = i + 1;
    }
    proof {
        assert(path@.take(i as int) =~= path@);
    }
    text
}

/// The sort key of a path: its text with slashes, then its text as written.
pub open spec fn path_sort_key(path: Seq<char>) -> Seq<Seq<char>> {
    seq![with_slashes(path), path]
}

/// Canonical order of paths: by text with backslashes read as slashes, and by
/// the text as written where that is the same.
pub open spec fn path_lt(left: Seq<char>, right: Seq<char>) -> bool {
    ordering::list_lt(path_sort_key(left), path_sort_key(right))
}

/// The sort key of `path`.
pub fn path_key(path: &str) -> (key: Vec<String>)
    ensures
        views(key@) == path_sort_key(path@),
{
    let mut key: Vec<String> = Vec::new();
    key.push(normalize_path_separators_of(path));
    key.push(path.to_string());
    proof {
        assert(views(key@) =~= path_sort_key(path@));
    }
    key
}

/// The paths in canonical order.
pub fn sorted_paths(list: &Vec<String>) -> (sorted: Vec<String>)
    ensures
        sorted@.len() == list@.len(),
        forall|i: int, j: int|
            0 <= i < j < sorted@.len() ==> !path_lt(
                (#[trigger] sorted@[j])@,
                (#[trigger] sorted@[i])@,
            ),
        views(sorted@).to_multiset() == views(list@).to_multiset(),
        views(list@).no_duplicates() ==> views(sorted@).no_duplicates(),
{
    let mut keys: Vec<Vec<String>> = Vec::new();
    let mut i: usize = 0;
    while i < list.len()
        invariant
            i <= list.len(),
            keys.len() == i,
            forall|k: int| 0 <= k < i ==> views((#[trigger] keys@[k])@) == path_sort_key(list@[k]@),
        decreases list.len() - i,
    {
        keys.push(path_key(list[i].as_str()));
        i = i + 1;
    }
    let order: Vec<usize> = ordering::sorted_positions(&keys);
    let mut sorted: Vec<String> = Vec::new();
    let mut next: usize = 0;
    while next < order.len()
        invariant
            next <= order.len(),
            ordering::is_permutation(order@, list@.len()),
            sorted.len() == next,
            forall|k: int| 0 <= k < next ==> (#[trigger] sorted@[k])@ == list@[order@[k] as int]@,
        decreases order.len() - next,
    {
        sorted.push(list[order[next]].clone());
        next = next + 1;
    }
    proof {
        let kv = ordering::key_views(keys@);
        assert forall|i: int, j: int| 0 <= i < j < sorted@.len() implies !path_lt(
            (#[trigger] sorted@[j])@,
            (#[trigger] sorted@[i])@,
        ) by {
            assert(kv[order@[i] as int] == views(keys@[order@[i] as int]@));
            assert(kv[order@[j] as int] == views(keys@[order@[j] as int]@));
        }
        ordering::lemma_permuted_multiset(views(list@), order@, views(sorted@));
        if views(list@).no_duplicates() {
            assert forall|i: int, j: int|
                0 <= i < sorted@.len() && 0 <= j < sorted@.len() && i != j implies views(
                sorted@,
            )[i] != views(sorted@)[j] by {
                assert(views(list@)[order@[i] as int] == views(sorted@)[i]);
                assert(views(list@)[order@[j] as int] == views(sorted@)[j]);
            }
        }
    }
    sorted
}

/// `base` is a leading part of `path`, component by component.
pub open spec fn is_under(path: Seq<char>, base: Seq<char>) -> bool {
    let b = components(base);
    let p = components(path);
    b.len() <= p.len() && p.take(b.len() as int) == b
}

/// Writes out the path that has the components `parts[from..to]`.
pub fn render(parts: &Vec<String>, from: usize, to: usize) -> (text: String)
    requires
        from <= to <= parts.len(),
    ensures
        text@ == rendered(views(parts@).subrange(from as int, to as int)),
{
    let ghost list = views(parts@).subrange(from as int, to as int);
    let mut text: String = String::new();
    let mut i: usize = from;
    proof {
        reveal_strlit("/");
        assert("/"@ =~= seq!['/']);
    }
    let absolute: bool = from < to && same_text(parts[from].as_str(), "/");
    if absolute {
        text.push('/');
        i = from + 1;
        proof {
            assert(text@ =~= seq!['/']);
        }
    }
    let start: usize = i;
    let ghost body = if absolute { list.drop_first() } else { list };
    let ghost lead = text@;
    proof {
        if from < to {
            assert(list[0] == parts@[from as int]@);
        }
        assert(body =~= views(parts@).subrange(start as int, to as int));
        assert(body.take(0) =~= Seq::<Seq<char>>::empty());
        assert(lead + joined(body.take(0)) =~= lead);
    }
    while i < to
        invariant
            from <= start <= i <= to <= parts.len(),
            body == views(parts@).subrange(start as int, to as int),
            text@ == lead + joined(body.take(i - start)),
        decreases to - i,
    {
        let ghost before = body.take(i - start);
        let ghost after = body.take(i - start + 1);
        proof {
            assert(after.drop_last() =~= before);
            assert(after.last() == parts@[i as int]@);
        }
        if i > start {
            text.push('/');
        }
        text.append(parts[i].as_str());
        proof {
            if i > start {
                assert(text@ =~= lead + joined(after));
            } else {
                assert(before =~= Seq::<Seq<char>>::empty());
                assert(text@ =~= lead + joined(after));
            }
        }
        i = i + 1;
    }
    proof {
        assert(body.take(to - start) =~= body);
        if absolute {
            assert(text@ =~= rendered(list));
        } else {
            assert(text@ =~= rendered(list));
        }
    }
    text
}

/// The part of `path` below `base`: `None` when `path` is not under `base`.
pub open spec fn below(path: Seq<char>, base: Seq<char>) -> Option<Seq<char>> {
    if is_under(path, base) {
        Some(rendered(components(path).skip(components(base).len() as int)))
    } else {
        None
    }
}

/// The part of `path` below `base`, written out.
pub fn get_relative_path(base: &str, path: &str) -> (relative: Option<String>)
    ensures
        match relative {
            Some(text) => below(path@, base@) == Some(text@),
            None => below(path@, base@) is None,
        },
        match relative {
            Some(text) => components(text@) == components(path@).skip(
                components(base@).len() as int,
            ),
            None => true,
        },
{
    let b: Vec<String> = components_of(base);
    let p: Vec<String> = components_of(path);
    if b.len() > p.len() {
        return None;
    }
    let ghost bv = components(base@);
    let ghost pv = components(path@);
    let mut i: usize = 0;
    while i < b.len()
        invariant
            i <= b.len() <= p.len(),
            views(b@) == bv,
            views(p@) == pv,
            bv == components(base@),
            pv == components(path@),
            forall|k: int| 0 <= k < i ==> bv[k] == pv[k],
        decreases b.len() - i,
    {
        if !same_text(b[i].as_str(), p[i].as_str()) {
            proof {
                assert(bv[i as int] == b@[i as int]@);
                assert(pv[i as int] == p@[i as int]@);
                assert(pv.take(bv.len() as int)[i as int] == pv[i as int]);
            }
            return None;
        }
        i = i + 1;
    }
    let text: String = render(&p, b.len(), p.len());
    proof {
        assert(pv.take(bv.len() as int) =~= bv);
        assert(pv.skip(bv.len() as int) =~= views(p@).subrange(b@.len() as int, p@.len() as int));
        components_are_component_list(path@);
        let rest = pv.skip(bv.len() as int);
        assert(is_component_list(rest)) by {
            assert forall|k: int| 0 < k < rest.len() implies is_step(#[trigger] rest[k])
                && !rest[k].contains('/') by {
                assert(rest[k] == pv[k + bv.len()]);
            }
            if rest.len() > 0 {
                assert(rest[0] == pv[bv.len() as int]);
            }
        }
        rendered_components(rest);
    }
    Some(text)
}

/// The steps among one piece: itself, or none.
proof fn lemma_one_piece(piece: Seq<char>)
    ensures
        is_step(piece) ==> seq![piece].filter(|p: Seq<char>| is_step(p)) == seq![piece],
        !is_step(piece) ==> seq![piece].filter(|p: Seq<char>| is_step(p)) == Seq::<
            Seq<char>,
        >::empty(),
{
    let kept = |p: Seq<char>| is_step(p);
    reveal(Seq::filter);
    assert(seq![piece].drop_last() =~= Seq::empty());
    assert(Seq::<Seq<char>>::empty().filter(kept) =~= Seq::empty());
    assert(Seq::<Seq<char>>::empty().push(piece) =~= seq![piece]);
}

/// A path without a slash is its only component.
proof fn lemma_plain_components(step: Seq<char>)
    requires
        !step.contains('/'),
    ensures
        step.len() > 0 ==> components(step) == seq![step],
        step.len() == 0 ==> components(step) == Seq::<Seq<char>>::empty(),
{
    lemma_pieces_of_plain(step);
    lemma_one_piece(step);
    if step.len() > 0 {
        assert(step.contains(step[0]));
        if is_step(step) {
            assert(path_anchor(step) =~= Seq::empty());
        }
        assert(components(step) =~= seq![step]);
    } else {
        assert(slash_pieces(step)[0].len() == 0);
        assert(seq!['.'].len() == 1);
        assert(components(step) =~= Seq::<Seq<char>>::empty());
    }
}

/// A step below a path is one more component.
proof fn lemma_step_below(dir: Seq<char>, step: Seq<char>)
    requires
        !step.contains('/'),
        dir.len() > 0,
    ensures
        is_step(step) ==> components(dir + seq!['/'] + step) == components(dir).push(step),
        !is_step(step) ==> components(dir + seq!['/'] + step) == components(dir),
{
    let kept = |piece: Seq<char>| is_step(piece);
    let whole = dir + seq!['/'] + step;
    lemma_pieces_of_plain(step);
    lemma_one_piece(step);
    lemma_pieces_append(dir, step);
    lemma_pieces_nonempty(dir);
    Seq::filter_distributes_over_add(slash_pieces(dir), seq![step], kept);
    assert(whole[0] == dir[0]);
    assert(slash_pieces(whole)[0] == slash_pieces(dir)[0]);
    assert(path_anchor(whole) == path_anchor(dir));
    if is_step(step) {
        assert(components(whole) =~= components(dir).push(step));
    } else {
        assert(components(whole) =~= components(dir));
    }
}

/// A step below the root is the second component.
proof fn lemma_step_below_root(step: Seq<char>)
    requires
        !step.contains('/'),
    ensures
        is_step(step) ==> components(seq!['/'] + step) == seq![seq!['/'], step],
        !is_step(step) ==> components(seq!['/'] + step) == seq![seq!['/']],
{
    let kept = |piece: Seq<char>| is_step(piece);
    let rooted = seq!['/'] + step;
    let nothing = Seq::<char>::empty();
    lemma_pieces_of_plain(step);
    lemma_one_piece(step);
    lemma_pieces_append(nothing, step);
    assert(nothing + seq!['/'] + step =~= rooted);
    lemma_pieces_of_plain(nothing);
    lemma_one_piece(nothing);
    Seq::filter_distributes_over_add(seq![nothing], seq![step], kept);
    assert(path_anchor(rooted) == seq![seq!['/']]);
    if is_step(step) {
        assert(components(rooted) =~= seq![seq!['/'], step]);
    } else {
        assert(components(rooted) =~= seq![seq!['/']]);
    }
}

/// The components of a path, one step at a time. A path without a slash is its
/// only component. Below another path it is one more, unless it is empty or `.`,
/// which add nothing.
pub proof fn components_one_step_at_a_time(dir: Seq<char>, step: Seq<char>)
    requires
        !step.contains('/'),
    ensures
        step.len() > 0 ==> components(step) == seq![step],
        step.len() == 0 ==> components(step) == Seq::<Seq<char>>::empty(),
        dir.len() > 0 && step.len() > 0 && step != seq!['.'] ==> components(dir + seq!['/'] + step)
            == components(dir).push(step),
        dir.len() > 0 && (step.len() == 0 || step == seq!['.']) ==> components(
            dir + seq!['/'] + step,
        ) == components(dir),
        step.len() > 0 && step != seq!['.'] ==> components(seq!['/'] + step) == seq![
            seq!['/'],
            step,
        ],
        step.len() == 0 || step == seq!['.'] ==> components(seq!['/'] + step) == seq![seq!['/']],
{
    lemma_plain_components(step);
    lemma_step_below_root(step);
    if dir.len() > 0 {
        lemma_step_below(dir, step);
    }
}

/// A path lies below another where its components begin with those of the other;
/// what is left of them is its relative path.
pub proof fn relative_paths_are_what_is_left(
    base: Seq<char>,
    path: Seq<char>,
    rest: Seq<Seq<char>>,
)
    ensures
        below(path, base) is Some <==> components(base).is_prefix_of(components(path)),
        components(path) == components(base) + rest ==> below(path, base) is Some && components(
            below(path, base)->0,
        ) == rest,
{
    let b = components(base);
    let p = components(path);
    if b.len() <= p.len() {
        assert(p.take(b.len() as int) == b <==> b.is_prefix_of(p));
    }
    if p == b + rest {
        assert(p.take(b.len() as int) =~= b);
        assert(p.skip(b.len() as int) =~= rest);
        components_are_component_list(path);
        assert(is_component_list(rest)) by {
            assert forall|k: int| 0 < k < rest.len() implies is_step(#[trigger] rest[k])
                && !rest[k].contains('/') by {
                assert(rest[k] == p[k + b.len()]);
            }
            if rest.len() > 0 {
                assert(rest[0] == p[b.len() as int]);
            }
        }
        rendered_components(rest);
    }
}

/// Backslashes become slashes, and nothing else changes.
pub proof fn backslashes_become_slashes(text: Seq<char>, i: int)
    requires
        0 <= i < text.len(),
    ensures
        with_slashes(text).len() == text.len(),
        text[i] == '\\' ==> with_slashes(text)[i] == '/',
        text[i] != '\\' ==> with_slashes(text)[i] == text[i],
{
}

/// Paths are ordered as they read with slashes; two that read the same, as they
/// are written.
pub proof fn paths_are_ordered_by_their_text(left: Seq<char>, right: Seq<char>)
    ensures
        with_slashes(left) != with_slashes(right) ==> path_lt(left, right) == text::text_lt(
            with_slashes(left),
            with_slashes(right),
        ),
        with_slashes(left) == with_slashes(right) ==> path_lt(left, right) == text::text_lt(
            left,
            right,
        ),
{
    reveal_with_fuel(ordering::list_lt, 3);
    let a = path_sort_key(left);
    let b = path_sort_key(right);
    assert(a.drop_first() =~= seq![left]);
    assert(b.drop_first() =~= seq![right]);
    assert(seq![left].drop_first() =~= Seq::empty());
    assert(seq![right].drop_first() =~= Seq::empty());
    text::text_lt_irreflexive(left);
}

} // verus!
