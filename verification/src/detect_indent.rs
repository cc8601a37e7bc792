//! The indentation of a text.

use crate::text::chars_of;
use crate::whitespace;
use crate::whitespace::white_space;
use vstd::prelude::*;
use vstd::string::*;

verus! {

/// A character that ends a line.
pub open spec fn is_line_end(c: char) -> bool {
    c == '\n' || c == '\r'
}

/// A line starts here: at the beginning, or behind the end of a line.
pub open spec fn is_line_start(text: Seq<char>, at: int) -> bool {
    0 <= at <= text.len() && (at == 0 || is_line_end(text[at - 1]))
}

/// From `at` on there is whitespace inside one line up to `to`.
pub open spec fn is_blank_stretch(text: Seq<char>, at: int, to: int) -> bool {
    0 <= at <= to <= text.len() && forall|k: int|
        at <= k < to ==> whitespace::is_white_space(#[trigger] text[k]) && !is_line_end(text[k])
}

/// The line that starts at `at` begins with whitespace up to `to`, and has
/// something else behind it.
pub open spec fn is_indented(text: Seq<char>, at: int, to: int) -> bool {
    &&& is_line_start(text, at)
    &&& is_blank_stretch(text, at, to)
    &&& at < to < text.len()
    &&& !whitespace::is_white_space(text[to])
}

/// No line that starts before `at` is indented.
pub open spec fn none_indented_before(text: Seq<char>, at: int) -> bool {
    forall|from: int, to: int| from < at ==> !#[trigger] is_indented(text, from, to)
}

/// The indent is the whitespace that the first indented line begins with, or
/// nothing where no line is indented.
pub open spec fn is_indent_of(content: Seq<char>, indent: Seq<char>) -> bool {
    (indent.len() == 0 && none_indented_before(content, content.len() as int)) || exists|
        from: int,
        to: int,
    | #[trigger]
        is_indented(content, from, to) && none_indented_before(content, from) && indent
            == content.subrange(from, to)
}

/// The whitespace that the first indented line begins with, or nothing where
/// no line is indented. Lines end at line feeds and at carriage returns, and a
/// line of whitespace alone does not count.
pub fn detect_indent_str(content: &str) -> (indent: &str)
    ensures
        (indent@.len() == 0 && none_indented_before(content@, content@.len() as int)) || exists|
            from: int,
            to: int,
        | #[trigger]
            is_indented(content@, from, to) && none_indented_before(content@, from) && indent@
                == content@.subrange(from, to),
        is_indent_of(content@, indent@),
{
    let chars: Vec<char> = chars_of(content);
    let mut start: usize = 0;
    while start < chars.len()
        invariant
            start <= chars@.len(),
            chars@ == content@,
            start == chars@.len() || is_line_start(content@, start as int),
            none_indented_before(content@, start as int),
        decreases chars@.len() - start,
    {
        let mut end: usize = start;
        while end < chars.len() && white_space(chars[end]) && chars[end] != '\n' && chars[end]
            != '\r'
            invariant
                start <= end <= chars@.len(),
                chars@ == content@,
                is_blank_stretch(content@, start as int, end as int),
            decreases chars@.len() - end,
        {
            end = end + 1;
        }
        if end < chars.len() && !white_space(chars[end]) && end > start {
            proof {
                assert(is_indented(content@, start as int, end as int));
            }
            return content.substring_char(start, end);
        }
        proof {
            assert forall|to: int| !#[trigger] is_indented(content@, start as int, to) by {
                if is_indented(content@, start as int, to) {
                    if to < end {
                        assert(whitespace::is_white_space(content@[to]));
                    } else if end < to {
                        assert(whitespace::is_white_space(content@[end as int]));
                    }
                }
            }
        }
        let ghost line = start;
        let mut next: usize = end;
        while next < chars.len() && chars[next] != '\n' && chars[next] != '\r'
            invariant
                line <= next <= chars@.len(),
                chars@ == content@,
                forall|k: int| line <= k < next ==> !is_line_end(#[trigger] content@[k]),
            decreases chars@.len() - next,
        {
            next = next + 1;
        }
        if next < chars.len() {
            next = next + 1;
        }
        proof {
            assert forall|from: int, to: int| from < next implies !#[trigger] is_indented(
                content@,
                from,
                to,
            ) by {
                if line < from && is_indented(content@, from, to) {
                    assert(is_line_end(content@[from - 1]));
                }
            }
        }
        start = next;
    }
    proof {
        reveal_strlit("");
    }
    ""
}

/// The indent of a content is what its first indented line begins with, whatever
/// comes behind that line. Here no line before it has any white space.
pub proof fn the_indent_is_that_of_the_first_indented_line(
    head: Seq<char>,
    white: Seq<char>,
    c: char,
    tail: Seq<char>,
    indent: Seq<char>,
)
    requires
        head.len() == 0 || head.last() == '\n' || head.last() == '\r',
        forall|k: int|
            0 <= k < head.len() ==> (#[trigger] head[k]) == '\n' || head[k] == '\r'
                || !whitespace::is_white_space(head[k]),
        white.len() > 0,
        forall|k: int|
            0 <= k < white.len() ==> whitespace::is_white_space(#[trigger] white[k]) && white[k]
                != '\n' && white[k] != '\r',
        !whitespace::is_white_space(c),
        is_indent_of(head + white + seq![c] + tail, indent),
    ensures
        indent == white,
{
    let content = head + white + seq![c] + tail;
    let start = head.len() as int;
    let end = start + white.len();
    assert(content.subrange(start, end) =~= white);
    assert(content[end] == c);
    assert(is_blank_stretch(content, start, end)) by {
        assert forall|k: int| start <= k < end implies whitespace::is_white_space(
            #[trigger] content[k],
        ) && !is_line_end(content[k]) by {
            assert(content[k] == white[k - start]);
        }
    }
    assert(is_line_start(content, start)) by {
        if start > 0 {
            assert(content[start - 1] == head[start - 1]);
        }
    }
    assert(is_indented(content, start, end));
    if none_indented_before(content, content.len() as int) {
        assert(!is_indented(content, start, end));
    }
    let (from, to) = choose|from: int, to: int| #[trigger]
        is_indented(content, from, to) && none_indented_before(content, from) && indent
            == content.subrange(from, to);
    assert(is_indented(content, from, to));
    if from < start {
        assert(content[from] == head[from]);
        assert(whitespace::is_white_space(content[from]) && !is_line_end(content[from]));
    }
    if from > start {
        assert(!is_indented(content, start, end));
    }
    if to < end {
        assert(whitespace::is_white_space(content[to]));
    }
    if to > end {
        assert(whitespace::is_white_space(content[end]));
    }
}

/// A content in which no line begins with white space has no indent.
pub proof fn without_indented_lines_there_is_no_indent(content: Seq<char>, indent: Seq<char>)
    requires
        content.len() > 0 ==> content[0] == '\n' || content[0] == '\r'
            || !whitespace::is_white_space(content[0]),
        forall|k: int|
            0 < k < content.len() && whitespace::is_white_space(#[trigger] content[k])
                ==> content[k] == '\n' || content[k] == '\r' || (content[k - 1] != '\n' && content[k
                - 1] != '\r'),
        is_indent_of(content, indent),
    ensures
        indent.len() == 0,
{
    if indent.len() > 0 {
        let (from, to) = choose|from: int, to: int| #[trigger]
            is_indented(content, from, to) && none_indented_before(content, from) && indent
                == content.subrange(from, to);
        assert(is_indented(content, from, to));
        assert(whitespace::is_white_space(content[from]) && !is_line_end(content[from]));
    }
}

} // verus!
