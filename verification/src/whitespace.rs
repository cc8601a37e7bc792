//! Whitespace at the ends of lines and texts.

use crate::text::{chars_of, joined_text, text_of};
use vstd::prelude::*;
use vstd::string::*;

verus! {

/// A character with the Unicode property `White_Space`.
pub open spec fn is_white_space(c: char) -> bool {
    ||| '\u{9}' <= c <= '\u{d}'
    ||| c == '\u{20}'
    ||| c == '\u{85}'
    ||| c == '\u{a0}'
    ||| c == '\u{1680}'
    ||| '\u{2000}' <= c <= '\u{200a}'
    ||| c == '\u{2028}'
    ||| c == '\u{2029}'
    ||| c == '\u{202f}'
    ||| c == '\u{205f}'
    ||| c == '\u{3000}'
}

/// Whether a character is whitespace.
pub fn white_space(c: char) -> (white: bool)
    ensures
        white == is_white_space(c),
{
    ('\u{9}' <= c && c <= '\u{d}') || c == '\u{20}' || c == '\u{85}' || c == '\u{a0}' || c
        == '\u{1680}' || ('\u{2000}' <= c && c <= '\u{200a}') || c == '\u{2028}' || c == '\u{2029}'
        || c == '\u{202f}' || c == '\u{205f}' || c == '\u{3000}'
}

/// The length of a text without the whitespace at its end.
pub open spec fn trimmed_length(text: Seq<char>) -> nat
    decreases text.len(),
{
    if text.len() == 0 || !is_white_space(text.last()) {
        text.len()
    } else {
        trimmed_length(text.drop_last())
    }
}

/// A trimmed text is no longer than the text.
pub proof fn lemma_trimmed_length(text: Seq<char>, n: int)
    requires
        0 <= n <= text.len(),
        n == 0 || !is_white_space(text[n - 1]),
        forall|k: int| n <= k < text.len() ==> is_white_space(#[trigger] text[k]),
    ensures
        trimmed_length(text) == n,
    decreases text.len(),
{
    if n < text.len() {
        let less = text.drop_last();
        assert(is_white_space(text[text.len() - 1]));
        assert forall|k: int| n <= k < less.len() implies is_white_space(#[trigger] less[k]) by {
            assert(less[k] == text[k]);
        }
        lemma_trimmed_length(less, n);
    }
}

fn trimmed_end(chars: &Vec<char>) -> (length: usize)
    ensures
        length == trimmed_length(chars@),
        length <= chars@.len(),
{
    let mut length: usize = chars.len();
    while length > 0 && white_space(chars[length - 1])
        invariant
            length <= chars@.len(),
            forall|k: int| length <= k < chars@.len() ==> is_white_space(#[trigger] chars@[k]),
        decreases length,
    {
        length = length - 1;
    }
    proof {
        lemma_trimmed_length(chars@, length as int);
    }
    length
}

/// A new content with the whitespace at its end replaced by that of the old
/// content.
pub open spec fn finalized(content: Seq<char>, original: Seq<char>) -> Seq<char> {
    content.take(trimmed_length(content) as int) + original.skip(trimmed_length(original) as int)
}

/// Gives a new content the trailing whitespace of the content that it
/// replaces.
pub fn finalize_content(content: &str, original: &str) -> (text: String)
    ensures
        text@ == finalized(content@, original@),
{
    let new_chars: Vec<char> = chars_of(content);
    let old_chars: Vec<char> = chars_of(original);
    let new_length: usize = trimmed_end(&new_chars);
    let old_length: usize = trimmed_end(&old_chars);
    let body: String = text_of(&new_chars, 0, new_length);
    let suffix: String = text_of(&old_chars, old_length, old_chars.len());
    proof {
        assert(body@ =~= content@.take(new_length as int));
        assert(suffix@ =~= original@.skip(old_length as int));
    }
    joined_text(body.as_str(), suffix.as_str())
}

/// The white space characters, one by one.
pub proof fn white_space_characters(c: char)
    ensures
        c == '\t' || c == '\n' || c == '\u{b}' || c == '\u{c}' || c == '\r' || c == ' '
            ==> is_white_space(c),
        c == '\u{85}' || c == '\u{a0}' || c == '\u{1680}' || c == '\u{2028}' || c == '\u{2029}' || c
            == '\u{202f}' || c == '\u{205f}' || c == '\u{3000}' ==> is_white_space(c),
        0x2000 <= (c as int) <= 0x200a ==> is_white_space(c),
        is_white_space(c) ==> (c as int) == 0x20 || (c as int) == 0x85 || (c as int) == 0xa0 || (
        c as int) == 0x1680 || (c as int) == 0x2028 || (c as int) == 0x2029 || (c as int) == 0x202f
            || (c as int) == 0x205f || (c as int) == 0x3000 || 9 <= (c as int) <= 13 || 0x2000 <= (
        c as int) <= 0x200a,
{
}

/// A new content keeps everything but its trailing white space, in place of
/// which it gets that of the old content.
pub proof fn trailing_white_space_is_that_of_the_old_content(
    body: Seq<char>,
    tail: Seq<char>,
    old_body: Seq<char>,
    old_tail: Seq<char>,
)
    requires
        body.len() == 0 || !is_white_space(body.last()),
        old_body.len() == 0 || !is_white_space(old_body.last()),
        forall|k: int| 0 <= k < tail.len() ==> is_white_space(#[trigger] tail[k]),
        forall|k: int| 0 <= k < old_tail.len() ==> is_white_space(#[trigger] old_tail[k]),
    ensures
        finalized(body + tail, old_body + old_tail) == body + old_tail,
{
    let content = body + tail;
    let original = old_body + old_tail;
    assert forall|k: int| body.len() <= k < content.len() implies is_white_space(
        #[trigger] content[k],
    ) by {
        assert(content[k] == tail[k - body.len()]);
    }
    assert forall|k: int| old_body.len() <= k < original.len() implies is_white_space(
        #[trigger] original[k],
    ) by {
        assert(original[k] == old_tail[k - old_body.len()]);
    }
    lemma_trimmed_length(content, body.len() as int);
    lemma_trimmed_length(original, old_body.len() as int);
    assert(content.take(body.len() as int) =~= body);
    assert(original.skip(old_body.len() as int) =~= old_tail);
}

} // verus!
