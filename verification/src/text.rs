//! Text helpers: characters, equality, byte order, decimal numbers.

use vstd::prelude::*;
use vstd::string::*;
use vstd::utf8::*;

verus! {

/// `String::push`: appends the character at the end of the text.
pub assume_specification[ String::push ](s: &mut String, c: char)
    ensures
        final(s)@ == old(s)@.push(c),
;

/// Whether two texts hold the same characters.
pub fn same_text(left: &str, right: &str) -> (same: bool)
    ensures
        same == (left@ == right@),
{
    let left_bytes: &[u8] = left.as_bytes();
    let right_bytes: &[u8] = right.as_bytes();
    proof {
        encode_utf8_decode_utf8(left@);
        encode_utf8_decode_utf8(right@);
    }
    if left_bytes.len() != right_bytes.len() {
        return false;
    }
    let mut i: usize = 0;
    while i < left_bytes.len()
        invariant
            i <= left_bytes.len() == right_bytes.len(),
            left_bytes@ == encode_utf8(left@),
            right_bytes@ == encode_utf8(right@),
            left_bytes@.take(i as int) == right_bytes@.take(i as int),
        decreases left_bytes.len() - i,
    {
        if left_bytes[i] != right_bytes[i] {
            return false;
        }
        proof {
            assert(left_bytes@.take(i as int + 1) =~= left_bytes@.take(i as int).push(
                left_bytes@[i as int],
            ));
            assert(right_bytes@.take(i as int + 1) =~= right_bytes@.take(i as int).push(
                right_bytes@[i as int],
            ));
        }
        i = i + 1;
    }
    proof {
        assert(left_bytes@.take(i as int) =~= left_bytes@);
        assert(right_bytes@.take(i as int) =~= right_bytes@);
    }
    true
}

/// The characters of `text`, in order.
pub fn chars_of(text: &str) -> (chars: Vec<char>)
    ensures
        chars@ == text@,
{
    let mut chars: Vec<char> = Vec::new();
    for c in it: text.chars()
        invariant
            it.seq() == text@,
            chars@ == text@.take(it.index() as int),
    {
        proof {
            assert(text@.take(it.index() as int + 1) =~= text@.take(it.index() as int).push(c));
        }
        chars.push(c);
    }
    proof {
        assert(text@.take(text@.len() as int) =~= text@);
    }
    chars
}

/// The text made of the characters `chars[from..to]`.
pub fn text_of(chars: &Vec<char>, from: usize, to: usize) -> (text: String)
    requires
        from <= to <= chars.len(),
    ensures
        text@ == chars@.subrange(from as int, to as int),
{
    let mut text = String::new();
    let mut i: usize = from;
    while i < to
        invariant
            from <= i <= to <= chars.len(),
            text@ == chars@.subrange(from as int, i as int),
        decreases to - i,
    {
        proof {
            assert(chars@.subrange(from as int, i as int + 1)
                =~= chars@.subrange(from as int, i as int).push(chars@[i as int]));
        }
        text.push(chars[i]);
        i = i + 1;
    }
    text
}

/// Lexicographic order of two texts by code point, which is also their order
/// by UTF-8 bytes.
pub open spec fn text_lt(left: Seq<char>, right: Seq<char>) -> bool
    decreases left.len(),
{
    if right.len() == 0 {
        false
    } else if left.len() == 0 {
        true
    } else if left[0] != right[0] {
        (left[0] as int) < (right[0] as int)
    } else {
        text_lt(left.drop_first(), right.drop_first())
    }
}

/// `left` comes before `right`, or is the same text.
pub open spec fn text_le(left: Seq<char>, right: Seq<char>) -> bool {
    left == right || text_lt(left, right)
}

/// No text comes before itself.
pub proof fn text_lt_irreflexive(a: Seq<char>)
    ensures
        !text_lt(a, a),
    decreases a.len(),
{
    if a.len() > 0 {
        text_lt_irreflexive(a.drop_first());
    }
}

/// The order of texts is transitive.
pub proof fn text_lt_transitive(a: Seq<char>, b: Seq<char>, c: Seq<char>)
    requires
        text_lt(a, b),
        text_lt(b, c),
    ensures
        text_lt(a, c),
    decreases a.len(),
{
    if a.len() > 0 && a[0] == b[0] && b[0] == c[0] {
        text_lt_transitive(a.drop_first(), b.drop_first(), c.drop_first());
    }
}

/// Of two different texts exactly one comes first.
pub proof fn text_lt_total(a: Seq<char>, b: Seq<char>)
    ensures
        text_lt(a, b) || text_lt(b, a) || a == b,
        !(text_lt(a, b) && text_lt(b, a)),
        !(text_lt(a, b) && a == b),
    decreases a.len(),
{
    text_lt_irreflexive(a);
    if a.len() > 0 && b.len() > 0 && a[0] == b[0] {
        text_lt_total(a.drop_first(), b.drop_first());
        if a.drop_first() == b.drop_first() {
            assert(a =~= seq![a[0]] + a.drop_first());
            assert(b =~= seq![b[0]] + b.drop_first());
        }
    } else if a.len() == 0 && b.len() == 0 {
        assert(a =~= b);
    }
}

proof fn text_lt_common_prefix(a: Seq<char>, b: Seq<char>, k: int)
    requires
        0 <= k <= a.len(),
        k <= b.len(),
        a.take(k) == b.take(k),
    ensures
        text_lt(a, b) == text_lt(a.skip(k), b.skip(k)),
    decreases k,
{
    if k == 0 {
        assert(a.skip(0) =~= a);
        assert(b.skip(0) =~= b);
    } else {
        assert(a[0] == a.take(k)[0] && b[0] == b.take(k)[0]);
        assert(a.drop_first().take(k - 1) =~= a.take(k).drop_first());
        assert(b.drop_first().take(k - 1) =~= b.take(k).drop_first());
        text_lt_common_prefix(a.drop_first(), b.drop_first(), k - 1);
        assert(a.drop_first().skip(k - 1) =~= a.skip(k));
        assert(b.drop_first().skip(k - 1) =~= b.skip(k));
    }
}

/// Whether `left` comes before `right` in the order of texts.
pub fn text_before(left: &str, right: &str) -> (before: bool)
    ensures
        before == text_lt(left@, right@),
{
    let a: Vec<char> = chars_of(left);
    let b: Vec<char> = chars_of(right);
    let mut i: usize = 0;
    while i < a.len() && i < b.len()
        invariant
            i <= a.len(),
            i <= b.len(),
            a@ == left@,
            b@ == right@,
            a@.take(i as int) == b@.take(i as int),
        decreases a.len() - i,
    {
        if a[i] != b[i] {
            proof {
                text_lt_common_prefix(a@, b@, i as int);
            }
            return a[i] < b[i];
        }
        proof {
            assert(a@.take(i as int + 1) =~= a@.take(i as int).push(a@[i as int]));
            assert(b@.take(i as int + 1) =~= b@.take(i as int).push(b@[i as int]));
        }
        i = i + 1;
    }
    proof {
        text_lt_common_prefix(a@, b@, i as int);
    }
    a.len() < b.len()
}

/// The two texts, one behind the other.
pub fn joined_text(left: &str, right: &str) -> (text: String)
    ensures
        text@ == left@ + right@,
{
    let mut text: String = left.to_string();
    text.append(right);
    text
}

/// The three texts, one behind the other.
pub fn joined_text3(first: &str, second: &str, third: &str) -> (text: String)
    ensures
        text@ == first@ + second@ + third@,
{
    let mut text: String = first.to_string();
    text.append(second);
    text.append(third);
    text
}

/// The decimal digit `d` as a character.
pub open spec fn digit_char(d: nat) -> char {
    if d == 0 { '0' } else if d == 1 { '1' } else if d == 2 { '2' } else if d == 3 { '3' }
    else if d == 4 { '4' } else if d == 5 { '5' } else if d == 6 { '6' } else if d == 7 { '7' }
    else if d == 8 { '8' } else { '9' }
}

/// `n` in decimal, without leading zeros.
pub open spec fn decimal(n: nat) -> Seq<char>
    decreases n,
{
    if n < 10 {
        seq![digit_char(n)]
    } else {
        decimal(n / 10).push(digit_char(n % 10))
    }
}

fn digit(d: u64) -> (c: char)
    requires
        d < 10,
    ensures
        c == digit_char(d as nat),
{
    if d == 0 { '0' } else if d == 1 { '1' } else if d == 2 { '2' } else if d == 3 { '3' }
    else if d == 4 { '4' } else if d == 5 { '5' } else if d == 6 { '6' } else if d == 7 { '7' }
    else if d == 8 { '8' } else { '9' }
}

/// `n` written in decimal.
pub fn decimal_text(n: u64) -> (text: String)
    ensures
        text@ == decimal(n as nat),
    decreases n,
{
    if n < 10 {
        let mut text = String::new();
        text.push(digit(n));
        proof {
            assert(text@ =~= seq![digit_char(n as nat)]);
        }
        text
    } else {
        let mut text = decimal_text(n / 10);
        text.push(digit(n % 10));
        text
    }
}

/// Whether `text` begins with `prefix`.
pub fn starts_with_text(text: &str, prefix: &str) -> (starts: bool)
    ensures
        starts == prefix@.is_prefix_of(text@),
{
    let chars: Vec<char> = chars_of(text);
    let wanted: Vec<char> = chars_of(prefix);
    if chars.len() < wanted.len() {
        return false;
    }
    let mut i: usize = 0;
    while i < wanted.len()
        invariant
            i <= wanted.len() <= chars.len(),
            chars@ == text@,
            wanted@ == prefix@,
            forall|k: int| 0 <= k < i ==> chars@[k] == wanted@[k],
        decreases wanted.len() - i,
    {
        if chars[i] != wanted[i] {
            return false;
        }
        i = i + 1;
    }
    proof {
        assert(prefix@ =~= text@.take(prefix@.len() as int));
    }
    true
}

/// Whether `text` ends with `suffix`.
pub fn ends_with_text(text: &str, suffix: &str) -> (ends: bool)
    ensures
        ends == suffix@.is_suffix_of(text@),
{
    let chars: Vec<char> = chars_of(text);
    let wanted: Vec<char> = chars_of(suffix);
    if chars.len() < wanted.len() {
        return false;
    }
    let from: usize = chars.len() - wanted.len();
    let mut i: usize = 0;
    while i < wanted.len()
        invariant
            i <= wanted.len(),
            from + wanted.len() == chars.len(),
            chars@ == text@,
            wanted@ == suffix@,
            forall|k: int| 0 <= k < i ==> chars@[from + k] == wanted@[k],
        decreases wanted.len() - i,
    {
        if chars[from + i] != wanted[i] {
            proof {
                assert(text@.skip(from as int)[i as int] == chars@[from + i]);
            }
            return false;
        }
        i = i + 1;
    }
    proof {
        assert(suffix@ =~= text@.subrange(from as int, text@.len() as int));
    }
    true
}

/// The pieces of `text` between the separators.
pub open spec fn split_pieces(text: Seq<char>, separator: char) -> Seq<Seq<char>>
    decreases text.len(),
{
    if text.len() == 0 {
        seq![Seq::empty()]
    } else {
        let earlier = split_pieces(text.drop_last(), separator);
        if text.last() == separator {
            earlier.push(Seq::empty())
        } else {
            earlier.drop_last().push(earlier.last().push(text.last()))
        }
    }
}

/// A text has at least one piece.
pub proof fn split_pieces_not_empty(text: Seq<char>, separator: char)
    ensures
        split_pieces(text, separator).len() > 0,
    decreases text.len(),
{
    if text.len() > 0 {
        split_pieces_not_empty(text.drop_last(), separator);
    }
}

/// The pieces of `text` between the separators.
pub fn split_text(text: &str, separator: char) -> (pieces: Vec<String>)
    ensures
        pieces@.map_values(|p: String| p@) == split_pieces(text@, separator),
{
    let chars: Vec<char> = chars_of(text);
    let mut pieces: Vec<String> = Vec::new();
    let mut piece = String::new();
    let mut i: usize = 0;
    proof {
        assert(chars@.take(0) =~= Seq::empty());
        assert(pieces@.map_values(|p: String| p@).push(piece@) =~= seq![Seq::empty()]);
    }
    while i < chars.len()
        invariant
            i <= chars@.len(),
            chars@ == text@,
            split_pieces(chars@.take(i as int), separator) == pieces@.map_values(
                |p: String| p@,
            ).push(piece@),
        decreases chars@.len() - i,
    {
        let ghost views = pieces@.map_values(|p: String| p@);
        let ghost grown = piece@;
        let ghost longer = chars@.take(i as int + 1);
        proof {
            assert(longer.drop_last() =~= chars@.take(i as int));
            assert(longer.last() == chars@[i as int]);
            assert(views.push(grown).drop_last() =~= views);
        }
        if chars[i] == separator {
            pieces.push(piece);
            piece = String::new();
            proof {
                assert(pieces@.map_values(|p: String| p@) =~= views.push(grown));
                assert(piece@ =~= Seq::empty());
            }
        } else {
            piece.push(chars[i]);
        }
        i = i + 1;
    }
    let ghost views = pieces@.map_values(|p: String| p@);
    let ghost last = piece@;
    pieces.push(piece);
    proof {
        assert(chars@.take(i as int) =~= text@);
        assert(pieces@.map_values(|p: String| p@) =~= views.push(last));
    }
    pieces
}

/// Texts are ordered by the first character in which they differ; a text comes
/// before its continuations.
pub proof fn texts_are_ordered_by_their_first_difference(
    common: Seq<char>,
    left: char,
    right: char,
    left_rest: Seq<char>,
    right_rest: Seq<char>,
)
    ensures
        left != right ==> text_lt(common + seq![left] + left_rest, common + seq![right] + right_rest)
            == ((left as int) < (right as int)),
        text_lt(common, common + seq![right] + right_rest),
        !text_lt(common + seq![left] + left_rest, common),
{
    let a = common + seq![left] + left_rest;
    let b = common + seq![right] + right_rest;
    let n = common.len() as int;
    assert(a.take(n) =~= common);
    assert(b.take(n) =~= common);
    assert(common.take(n) =~= common);
    text_lt_common_prefix(a, b, n);
    text_lt_common_prefix(common, b, n);
    text_lt_common_prefix(a, common, n);
    assert(a.skip(n)[0] == left);
    assert(b.skip(n)[0] == right);
}

/// A number is written with its last decimal digit last, and without zeros in
/// front.
pub proof fn numbers_are_written_in_decimals(n: nat, d: nat)
    requires
        d < 10,
    ensures
        decimal(d).len() == 1,
        (decimal(d)[0] as int) == ('0' as int) + d,
        n > 0 ==> decimal(10 * n + d) == decimal(n) + decimal(d),
{
    if n > 0 {
        assert((10 * n + d) / 10 == n);
        assert((10 * n + d) % 10 == d);
        assert(decimal(n).push(digit_char(d)) =~= decimal(n) + decimal(d));
    }
}

} // verus!
