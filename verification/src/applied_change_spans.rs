//! Byte-level JSON span scanner used to rewrite changepack logs in place.
//!
//! A changepack log is never re-serialized: [`remove_applied_change_spans`]
//! locates the byte spans of the applied `changes` members in the text and
//! splices them out. Everything else survives byte for byte: key order,
//! indentation, spacing, trailing newline.

use crate::paths;
use crate::text;
use crate::text::{decimal_text, joined_text, same_text};
use vstd::prelude::*;
use vstd::string::*;
use vstd::utf8::*;

verus! {

/// Why a text is not the object with a `changes` object that the rewriter
/// understands. Positions count bytes.
#[derive(Debug)]
pub enum SpanError {
    ExpectedString(usize),
    UnterminatedString(usize),
    MismatchedDelimiter(usize),
    UnterminatedValue(usize),
    ExpectedValue,
    ExpectedObject(usize),
    ExpectedColon(usize),
    ExpectedSeparator(usize),
    /// A member key that is no JSON string, with the decoder's message.
    InvalidKey(String),
    MissingChanges,
}

/// [`SpanError`] over mathematical values.
pub enum SpanFault {
    ExpectedString(int),
    UnterminatedString(int),
    MismatchedDelimiter(int),
    UnterminatedValue(int),
    ExpectedValue,
    ExpectedObject(int),
    ExpectedColon(int),
    ExpectedSeparator(int),
    InvalidKey(Seq<char>),
    MissingChanges,
}

impl View for SpanError {
    type V = SpanFault;

    open spec fn view(&self) -> SpanFault {
        match self {
            SpanError::ExpectedString(n) => SpanFault::ExpectedString(*n as int),
            SpanError::UnterminatedString(n) => SpanFault::UnterminatedString(*n as int),
            SpanError::MismatchedDelimiter(n) => SpanFault::MismatchedDelimiter(*n as int),
            SpanError::UnterminatedValue(n) => SpanFault::UnterminatedValue(*n as int),
            SpanError::ExpectedValue => SpanFault::ExpectedValue,
            SpanError::ExpectedObject(n) => SpanFault::ExpectedObject(*n as int),
            SpanError::ExpectedColon(n) => SpanFault::ExpectedColon(*n as int),
            SpanError::ExpectedSeparator(n) => SpanFault::ExpectedSeparator(*n as int),
            SpanError::InvalidKey(message) => SpanFault::InvalidKey(message@),
            SpanError::MissingChanges => SpanFault::MissingChanges,
        }
    }
}

/// The message of a fault.
pub open spec fn fault_message(fault: SpanFault) -> Seq<char> {
    match fault {
        SpanFault::ExpectedString(n) => "expected JSON string at byte "@ + text::decimal(n as nat),
        SpanFault::UnterminatedString(n) => "unterminated JSON string at byte "@ + text::decimal(
            n as nat,
        ),
        SpanFault::MismatchedDelimiter(n) => "mismatched JSON closing delimiter at byte "@
            + text::decimal(n as nat),
        SpanFault::UnterminatedValue(n) => "unterminated JSON value at byte "@ + text::decimal(
            n as nat,
        ),
        SpanFault::ExpectedValue => "expected JSON value at end of input"@,
        SpanFault::ExpectedObject(n) => "expected JSON object at byte "@ + text::decimal(n as nat),
        SpanFault::ExpectedColon(n) => "expected ':' after JSON object key at byte "@
            + text::decimal(n as nat),
        SpanFault::ExpectedSeparator(n) => "expected ',' or '}' after JSON object member at byte "@
            + text::decimal(n as nat),
        SpanFault::InvalidKey(message) => message,
        SpanFault::MissingChanges => "parsed update log is missing its changes object"@,
    }
}

impl SpanError {
    /// The message shown to the user.
    pub fn message(&self) -> (message: String)
        ensures
            message@ == fault_message(self@),
    {
        match self {
            SpanError::ExpectedString(n) => joined_text(
                "expected JSON string at byte ",
                decimal_text(*n as u64).as_str(),
            ),
            SpanError::UnterminatedString(n) => joined_text(
                "unterminated JSON string at byte ",
                decimal_text(*n as u64).as_str(),
            ),
            SpanError::MismatchedDelimiter(n) => joined_text(
                "mismatched JSON closing delimiter at byte ",
                decimal_text(*n as u64).as_str(),
            ),
            SpanError::UnterminatedValue(n) => joined_text(
                "unterminated JSON value at byte ",
                decimal_text(*n as u64).as_str(),
            ),
            SpanError::ExpectedValue => "expected JSON value at end of input".to_string(),
            SpanError::ExpectedObject(n) => joined_text(
                "expected JSON object at byte ",
                decimal_text(*n as u64).as_str(),
            ),
            SpanError::ExpectedColon(n) => joined_text(
                "expected ':' after JSON object key at byte ",
                decimal_text(*n as u64).as_str(),
            ),
            SpanError::ExpectedSeparator(n) => joined_text(
                "expected ',' or '}' after JSON object member at byte ",
                decimal_text(*n as u64).as_str(),
            ),
            SpanError::InvalidKey(message) => message.clone(),
            SpanError::MissingChanges => "parsed update log is missing its changes object".to_string(),
        }
    }
}

/// One member of a JSON object, by byte positions: `prefix_start` is where the
/// text between the previous delimiter and the key begins.
pub struct JsonObjectMember {
    pub prefix_start: usize,
    pub key: String,
    pub value_start: usize,
    pub value_end: usize,
    pub comma: Option<usize>,
}

/// [`JsonObjectMember`] over mathematical values.
pub struct MemberSpan {
    pub prefix_start: int,
    pub key: Seq<char>,
    pub value_start: int,
    pub value_end: int,
    pub comma: Option<int>,
}

impl View for JsonObjectMember {
    type V = MemberSpan;

    open spec fn view(&self) -> MemberSpan {
        MemberSpan {
            prefix_start: self.prefix_start as int,
            key: self.key@,
            value_start: self.value_start as int,
            value_end: self.value_end as int,
            comma: match self.comma {
                Some(comma) => Some(comma as int),
                None => None,
            },
        }
    }
}

/// The byte at `at` is `byte`; false past the end.
pub open spec fn byte_is(bytes: Seq<u8>, at: int, byte: u8) -> bool {
    0 <= at < bytes.len() && bytes[at] == byte
}

/// JSON whitespace.
pub open spec fn is_json_space(byte: u8) -> bool {
    byte == 0x20 || byte == 0x09 || byte == 0x0d || byte == 0x0a
}

/// The first position from `at` on that holds no whitespace.
pub open spec fn after_space(bytes: Seq<u8>, at: int) -> int
    decreases bytes.len() - at,
{
    if 0 <= at < bytes.len() && is_json_space(bytes[at]) {
        after_space(bytes, at + 1)
    } else {
        at
    }
}

/// The position behind the first unescaped quote from `at` on.
pub open spec fn after_quote(bytes: Seq<u8>, at: int) -> Option<int>
    decreases bytes.len() + 1 - at,
{
    if at < 0 || at >= bytes.len() {
        None
    } else if bytes[at] == 0x5c {
        after_quote(bytes, at + 2)
    } else if bytes[at] == 0x22 {
        Some(at + 1)
    } else {
        after_quote(bytes, at + 1)
    }
}

/// A quote that is found lies behind the start and inside the text.
pub proof fn after_quote_bounds(bytes: Seq<u8>, at: int)
    ensures
        match after_quote(bytes, at) {
            Some(end) => 0 <= at < end <= bytes.len() && bytes[end - 1] == 0x22,
            None => true,
        },
    decreases bytes.len() + 1 - at,
{
    if 0 <= at < bytes.len() {
        if bytes[at] == 0x5c {
            after_quote_bounds(bytes, at + 2);
        } else if bytes[at] != 0x22 {
            after_quote_bounds(bytes, at + 1);
        }
    }
}

/// The end of the JSON string that starts at `start`.
pub open spec fn string_end(bytes: Seq<u8>, start: int) -> Result<int, SpanFault> {
    if !byte_is(bytes, start, 0x22) {
        Err(SpanFault::ExpectedString(start))
    } else {
        match after_quote(bytes, start + 1) {
            Some(end) => Ok(end),
            None => Err(SpanFault::UnterminatedString(start)),
        }
    }
}

/// The end of the container opened at `start`, scanned from `at` on with the
/// delimiters in `closers` still to come, the innermost last.
pub open spec fn container_end(bytes: Seq<u8>, at: int, closers: Seq<u8>, start: int) -> Result<
    int,
    SpanFault,
>
    decreases bytes.len() - at,
{
    if at < 0 || at >= bytes.len() {
        Err(SpanFault::UnterminatedValue(start))
    } else if bytes[at] == 0x22 {
        match string_end(bytes, at) {
            Ok(end) => {
                proof {
                    after_quote_bounds(bytes, at + 1);
                }
                container_end(bytes, end, closers, start)
            },
            Err(fault) => Err(fault),
        }
    } else if bytes[at] == 0x7b {
        container_end(bytes, at + 1, closers.push(0x7d), start)
    } else if bytes[at] == 0x5b {
        container_end(bytes, at + 1, closers.push(0x5d), start)
    } else if bytes[at] == 0x7d || bytes[at] == 0x5d {
        if closers.len() == 0 || closers.last() != bytes[at] {
            Err(SpanFault::MismatchedDelimiter(at))
        } else if closers.len() == 1 {
            Ok(at + 1)
        } else {
            container_end(bytes, at + 1, closers.drop_last(), start)
        }
    } else {
        container_end(bytes, at + 1, closers, start)
    }
}

/// A byte that ends a bare JSON literal.
pub open spec fn ends_literal(byte: u8) -> bool {
    is_json_space(byte) || byte == 0x2c || byte == 0x7d || byte == 0x5d
}

/// The first position from `at` on that ends a bare literal, or the end.
pub open spec fn literal_end(bytes: Seq<u8>, at: int) -> int
    decreases bytes.len() - at,
{
    if 0 <= at < bytes.len() && !ends_literal(bytes[at]) {
        literal_end(bytes, at + 1)
    } else {
        at
    }
}

/// The end of the JSON value that starts at `from`, whitespace skipped.
pub open spec fn value_end(bytes: Seq<u8>, from: int) -> Result<int, SpanFault> {
    let start = after_space(bytes, from);
    if start < 0 || start >= bytes.len() {
        Err(SpanFault::ExpectedValue)
    } else if bytes[start] == 0x22 {
        string_end(bytes, start)
    } else if bytes[start] == 0x7b {
        container_end(bytes, start + 1, seq![0x7du8], start)
    } else if bytes[start] == 0x5b {
        container_end(bytes, start + 1, seq![0x5du8], start)
    } else {
        Ok(literal_end(bytes, start))
    }
}

pub proof fn after_space_bounds(bytes: Seq<u8>, at: int)
    ensures
        at <= after_space(bytes, at),
        at <= bytes.len() ==> after_space(bytes, at) <= bytes.len(),
    decreases bytes.len() - at,
{
    if 0 <= at < bytes.len() && is_json_space(bytes[at]) {
        after_space_bounds(bytes, at + 1);
    }
}

pub proof fn container_end_bounds(bytes: Seq<u8>, at: int, closers: Seq<u8>, start: int)
    ensures
        match container_end(bytes, at, closers, start) {
            Ok(end) => 0 <= at < end <= bytes.len() && (bytes[end - 1] == 0x7d || bytes[end - 1]
                == 0x5d),
            Err(_) => true,
        },
    decreases bytes.len() - at,
{
    if 0 <= at < bytes.len() {
        if bytes[at] == 0x22 {
            after_quote_bounds(bytes, at + 1);
            match string_end(bytes, at) {
                Ok(end) => container_end_bounds(bytes, end, closers, start),
                Err(_) => {},
            }
        } else if bytes[at] == 0x7b {
            container_end_bounds(bytes, at + 1, closers.push(0x7d), start);
        } else if bytes[at] == 0x5b {
            container_end_bounds(bytes, at + 1, closers.push(0x5d), start);
        } else if bytes[at] == 0x7d || bytes[at] == 0x5d {
            if closers.len() > 1 {
                container_end_bounds(bytes, at + 1, closers.drop_last(), start);
            }
        } else {
            container_end_bounds(bytes, at + 1, closers, start);
        }
    }
}

pub proof fn literal_end_bounds(bytes: Seq<u8>, at: int)
    ensures
        at <= literal_end(bytes, at),
        0 <= at <= bytes.len() ==> literal_end(bytes, at) <= bytes.len(),
        0 <= at && literal_end(bytes, at) < bytes.len() ==> ends_literal(
            bytes[literal_end(bytes, at)],
        ),
    decreases bytes.len() - at,
{
    if 0 <= at < bytes.len() && !ends_literal(bytes[at]) {
        literal_end_bounds(bytes, at + 1);
    }
}

pub proof fn value_end_bounds(bytes: Seq<u8>, from: int)
    requires
        0 <= from,
    ensures
        match value_end(bytes, from) {
            Ok(end) => from <= end <= bytes.len(),
            Err(_) => true,
        },
{
    let start = after_space(bytes, from);
    after_space_bounds(bytes, from);
    after_quote_bounds(bytes, start + 1);
    container_end_bounds(bytes, start + 1, seq![0x7du8], start);
    container_end_bounds(bytes, start + 1, seq![0x5du8], start);
    literal_end_bounds(bytes, start);
}

/// What `serde_json::from_str::<String>` makes of a text: the decoded string,
/// or the error as it prints.
pub uninterp spec fn decoded_json_string(text: Seq<char>) -> Result<Seq<char>, Seq<char>>;

/// `serde_json::from_str::<String>`: decodes one JSON string literal, quotes
/// included. The outcome is a function of the text alone: the string it
/// denotes, or the printed error where it is no JSON string.
#[verifier::external_body]
fn decode_json_string(text: &str) -> (decoded: Result<String, String>)
    ensures
        match decoded {
            Ok(value) => decoded_json_string(text@) == Ok::<Seq<char>, Seq<char>>(value@),
            Err(message) => decoded_json_string(text@) == Err::<Seq<char>, Seq<char>>(message@),
        },
{
    serde_json::from_str::<String>(text).map_err(|error| error.to_string())
}

/// A member's parts follow each other.
pub proof fn member_moves_on(bytes: Seq<u8>, at: int)
    ensures
        ({
            let key_start = after_space(bytes, at);
            match string_end(bytes, key_start) {
                Ok(key_end) => {
                    let colon = after_space(bytes, key_end);
                    let value_start = after_space(bytes, colon + 1);
                    match value_end(bytes, value_start) {
                        Ok(end) => at <= key_start < key_end <= colon < value_start <= end
                            <= after_space(bytes, end),
                        Err(_) => true,
                    }
                },
                Err(_) => true,
            }
        }),
{
    let key_start = after_space(bytes, at);
    after_space_bounds(bytes, at);
    after_quote_bounds(bytes, key_start + 1);
    match string_end(bytes, key_start) {
        Ok(key_end) => {
            after_space_bounds(bytes, key_end);
            let colon = after_space(bytes, key_end);
            after_space_bounds(bytes, colon + 1);
            let value_start = after_space(bytes, colon + 1);
            value_end_bounds(bytes, value_start);
            match value_end(bytes, value_start) {
                Ok(end) => after_space_bounds(bytes, end),
                Err(_) => {},
            }
        },
        Err(_) => {},
    }
}

/// The members of an object, from the position behind its opening brace or
/// behind a member's comma.
pub open spec fn members_from(bytes: Seq<u8>, at: int) -> Result<Seq<MemberSpan>, SpanFault>
    decreases bytes.len() - at,
{
    let key_start = after_space(bytes, at);
    if byte_is(bytes, key_start, 0x7d) {
        Ok(Seq::empty())
    } else {
        match string_end(bytes, key_start) {
            Err(fault) => Err(fault),
            Ok(key_end) => match decoded_json_string(
                decode_utf8(bytes.subrange(key_start, key_end)),
            ) {
                Err(message) => Err(SpanFault::InvalidKey(message)),
                Ok(key) => {
                    let colon = after_space(bytes, key_end);
                    if !byte_is(bytes, colon, 0x3a) {
                        Err(SpanFault::ExpectedColon(colon))
                    } else {
                        let value_start = after_space(bytes, colon + 1);
                        match value_end(bytes, value_start) {
                            Err(fault) => Err(fault),
                            Ok(end) => {
                                let next = after_space(bytes, end);
                                let member = MemberSpan {
                                    prefix_start: at,
                                    key,
                                    value_start,
                                    value_end: end,
                                    comma: if byte_is(bytes, next, 0x2c) {
                                        Some(next)
                                    } else {
                                        None
                                    },
                                };
                                proof {
                                    member_moves_on(bytes, at);
                                }
                                if byte_is(bytes, next, 0x2c) {
                                    match members_from(bytes, next + 1) {
                                        Err(fault) => Err(fault),
                                        Ok(rest) => Ok(seq![member] + rest),
                                    }
                                } else if byte_is(bytes, next, 0x7d) {
                                    Ok(seq![member])
                                } else {
                                    Err(SpanFault::ExpectedSeparator(next))
                                }
                            },
                        }
                    }
                },
            },
        }
    }
}

/// The members of the object that opens at `open`.
pub open spec fn object_members(bytes: Seq<u8>, open: int) -> Result<Seq<MemberSpan>, SpanFault> {
    if !byte_is(bytes, open, 0x7b) {
        Err(SpanFault::ExpectedObject(open))
    } else {
        members_from(bytes, open + 1)
    }
}

/// The members of an object come one after the other, each behind the comma
/// of the one before.
pub open spec fn members_in_line(bytes: Seq<u8>, members: Seq<MemberSpan>) -> bool {
    &&& forall|i: int|
        0 <= i < members.len() ==> {
            let m = #[trigger] members[i];
            &&& 0 < m.prefix_start < m.value_start <= m.value_end < bytes.len()
            &&& bytes[m.prefix_start - 1] < 0x80
            &&& bytes[m.value_end] < 0x80
            &&& match m.comma {
                Some(comma) => m.value_end <= comma < bytes.len() && bytes[comma] == 0x2c,
                None => i == members.len() - 1,
            }
        }
    &&& forall|i: int, j: int|
        0 <= i && j == i + 1 && j < members.len() ==> (#[trigger] members[j]).prefix_start == (
        #[trigger] members[i]).comma->0 + 1
}

pub proof fn lemma_members_in_line(bytes: Seq<u8>, at: int)
    requires
        0 < at,
        at <= bytes.len(),
        bytes[at - 1] < 0x80,
        members_from(bytes, at) is Ok,
    ensures
        members_in_line(bytes, members_from(bytes, at)->Ok_0),
        members_from(bytes, at)->Ok_0.len() > 0 ==> members_from(bytes, at)->Ok_0[0].prefix_start
            == at,
    decreases bytes.len() - at,
{
    let key_start = after_space(bytes, at);
    member_moves_on(bytes, at);
    if !byte_is(bytes, key_start, 0x7d) {
        let key_end = string_end(bytes, key_start)->Ok_0;
        let colon = after_space(bytes, key_end);
        let value_start = after_space(bytes, colon + 1);
        let end = value_end(bytes, value_start)->Ok_0;
        let next = after_space(bytes, end);
        after_space_bounds(bytes, end);
        assert(end <= next < bytes.len());
        assert(bytes[end] < 0x80);
        let all = members_from(bytes, at)->Ok_0;
        if byte_is(bytes, next, 0x2c) {
            lemma_members_in_line(bytes, next + 1);
            let rest = members_from(bytes, next + 1)->Ok_0;
            assert(all == seq![all[0]] + rest);
            assert forall|i: int| 0 <= i < all.len() implies {
                let m = #[trigger] all[i];
                &&& 0 < m.prefix_start < m.value_start <= m.value_end < bytes.len()
                &&& bytes[m.prefix_start - 1] < 0x80
                &&& bytes[m.value_end] < 0x80
                &&& match m.comma {
                    Some(comma) => m.value_end <= comma < bytes.len() && bytes[comma] == 0x2c,
                    None => i == all.len() - 1,
                }
            } by {
                if i > 0 {
                    assert(all[i] == rest[i - 1]);
                }
            }
            assert forall|i: int, j: int| 0 <= i && j == i + 1 && j < all.len() implies (
            #[trigger] all[j]).prefix_start == (#[trigger] all[i]).comma->0 + 1 by {
                assert(all[j] == rest[i]);
                if i > 0 {
                    assert(all[i] == rest[i - 1]);
                }
            }
        } else {
            assert(all =~= seq![all[0]]);
        }
    }
}

/// The first position from `from` on that is not selected, or the end.
pub open spec fn run_end(selected: Seq<bool>, from: int) -> int
    decreases selected.len() - from,
{
    if 0 <= from < selected.len() && selected[from] {
        run_end(selected, from + 1)
    } else {
        from
    }
}

/// A run that is followed by a kept member goes with its last comma; the run
/// at the end goes with the comma before it, and ends with the last value.
pub open spec fn run_span(members: Seq<MemberSpan>, from: int, to: int) -> (int, int) {
    if to < members.len() {
        (members[from].prefix_start, members[to - 1].comma->0 + 1)
    } else if from == 0 {
        (members[0].prefix_start, members[to - 1].value_end)
    } else {
        (members[from - 1].comma->0, members[to - 1].value_end)
    }
}

/// The spans to cut out: one for each run of selected members from `from` on.
pub open spec fn removed_spans(
    members: Seq<MemberSpan>,
    selected: Seq<bool>,
    from: int,
) -> Seq<(int, int)>
    decreases selected.len() - from,
{
    if from < 0 || from >= selected.len() {
        Seq::empty()
    } else if !selected[from] {
        removed_spans(members, selected, from + 1)
    } else {
        proof {
            run_end_bounds(selected, from);
        }
        seq![run_span(members, from, run_end(selected, from))] + removed_spans(
            members,
            selected,
            run_end(selected, from),
        )
    }
}

/// A run ends behind its start, where a member is not selected.
pub proof fn run_end_bounds(selected: Seq<bool>, from: int)
    requires
        0 <= from <= selected.len(),
    ensures
        from <= run_end(selected, from) <= selected.len(),
        from < selected.len() && selected[from] ==> from < run_end(selected, from),
        run_end(selected, from) < selected.len() ==> !selected[run_end(selected, from)],
        forall|i: int| from <= i < run_end(selected, from) ==> selected[i],
    decreases selected.len() - from,
{
    if from < selected.len() && selected[from] {
        run_end_bounds(selected, from + 1);
    }
}

/// `bytes` from `from` on, without the spans.
pub open spec fn spliced(bytes: Seq<u8>, spans: Seq<(int, int)>, from: int) -> Seq<u8>
    decreases spans.len(),
{
    if spans.len() == 0 {
        bytes.subrange(from, bytes.len() as int)
    } else {
        bytes.subrange(from, spans[0].0) + spliced(bytes, spans.drop_first(), spans[0].1)
    }
}

/// The spans lie in order inside `bytes`, from `from` on.
pub open spec fn spans_in_order(bytes: Seq<u8>, spans: Seq<(int, int)>, from: int) -> bool
    decreases spans.len(),
{
    if spans.len() == 0 {
        from <= bytes.len()
    } else {
        from <= spans[0].0 < spans[0].1 <= bytes.len() && spans_in_order(
            bytes,
            spans.drop_first(),
            spans[0].1,
        )
    }
}

proof fn lemma_ascii_boundary(bytes: Seq<u8>, at: int)
    requires
        valid_utf8(bytes),
        0 <= at < bytes.len(),
        bytes[at] < 0x80,
    ensures
        is_char_boundary(bytes, at),
        is_char_boundary(bytes, at + 1),
    decreases bytes.len(),
{
    is_char_boundary_iff_not_is_continuation_byte(bytes, at);
    if at == 0 {
        reveal_with_fuel(is_char_boundary, 2);
    } else {
        let width = length_of_first_scalar(bytes);
        assert(width <= at);
        lemma_ascii_boundary(pop_first_scalar(bytes), at - width);
    }
}

proof fn lemma_encode_append(a: Seq<char>, b: Seq<char>)
    ensures
        encode_utf8(a + b) == encode_utf8(a) + encode_utf8(b),
    decreases a.len(),
{
    if a.len() == 0 {
        assert(a + b =~= b);
        assert(encode_utf8(a) + encode_utf8(b) =~= encode_utf8(b));
    } else {
        assert((a + b).drop_first() =~= a.drop_first() + b);
        lemma_encode_append(a.drop_first(), b);
        assert(encode_utf8(a + b) =~= encode_utf8(a) + encode_utf8(b));
    }
}

/// The part of `content` between two character boundaries.
fn slice_between<'a>(content: &'a str, from: usize, to: usize) -> (part: &'a str)
    requires
        from <= to,
        is_char_boundary(encode_utf8(content@), from as int),
        is_char_boundary(encode_utf8(content@), to as int),
        to <= encode_utf8(content@).len(),
    ensures
        encode_utf8(part@) == encode_utf8(content@).subrange(from as int, to as int),
        part@ == decode_utf8(encode_utf8(content@).subrange(from as int, to as int)),
{
    let ghost bytes = encode_utf8(content@);
    let (_, tail): (&str, &str) = content.split_at(from);
    proof {
        encode_utf8_valid_utf8(content@);
        encode_utf8_valid_utf8(tail@);
        let rest = encode_utf8(tail@);
        assert(rest == bytes.subrange(from as int, bytes.len() as int));
        let mid = to - from;
        if to == bytes.len() {
            is_char_boundary_start_end_of_seq(rest);
        } else {
            is_char_boundary_iff_not_is_continuation_byte(bytes, to as int);
            assert(rest[mid] == bytes[to as int]);
            is_char_boundary_iff_not_is_continuation_byte(rest, mid);
        }
    }
    let (part, _): (&str, &str) = tail.split_at(to - from);
    proof {
        assert(encode_utf8(part@) =~= bytes.subrange(from as int, to as int));
        encode_utf8_decode_utf8(part@);
    }
    part
}

/// The first position from `cursor` on that holds no JSON whitespace.
pub fn skip_json_whitespace(bytes: &[u8], cursor: usize) -> (next: usize)
    ensures
        next == after_space(bytes@, cursor as int),
        cursor <= next,
        cursor <= bytes.len() ==> next <= bytes.len(),
{
    let mut at: usize = cursor;
    while at < bytes.len() && (bytes[at] == 0x20 || bytes[at] == 0x09 || bytes[at] == 0x0d
        || bytes[at] == 0x0a)
        invariant
            cursor <= at,
            cursor <= bytes.len() ==> at <= bytes.len(),
            after_space(bytes@, cursor as int) == after_space(bytes@, at as int),
        decreases bytes.len() - at,
    {
        at = at + 1;
    }
    at
}

/// The position behind the JSON string that starts at `start`.
pub fn scan_json_string_end(bytes: &[u8], start: usize) -> (end: Result<usize, SpanError>)
    ensures
        match end {
            Ok(at) => string_end(bytes@, start as int) == Ok::<int, SpanFault>(at as int) && start
                + 1 < at <= bytes.len(),
            Err(error) => string_end(bytes@, start as int) == Err::<int, SpanFault>(error@),
        },
{
    if start >= bytes.len() || bytes[start] != 0x22 {
        return Err(SpanError::ExpectedString(start));
    }
    let mut cursor: usize = start + 1;
    proof {
        after_quote_bounds(bytes@, start + 1);
    }
    while cursor < bytes.len()
        invariant
            start < cursor <= bytes.len(),
            byte_is(bytes@, start as int, 0x22),
            after_quote(bytes@, start + 1) == after_quote(bytes@, cursor as int),
            match after_quote(bytes@, start + 1) {
                Some(at) => start + 1 < at <= bytes.len(),
                None => true,
            },
        decreases bytes.len() - cursor,
    {
        if bytes[cursor] == 0x5c {
            if cursor + 1 >= bytes.len() {
                proof {
                    assert(after_quote(bytes@, cursor + 2) is None);
                }
                return Err(SpanError::UnterminatedString(start));
            }
            cursor = cursor + 2;
        } else if bytes[cursor] == 0x22 {
            return Ok(cursor + 1);
        } else {
            cursor = cursor + 1;
        }
    }
    Err(SpanError::UnterminatedString(start))
}

fn scan_container_end(bytes: &[u8], start: usize, closer: u8) -> (end: Result<usize, SpanError>)
    requires
        start < bytes.len(),
    ensures
        match end {
            Ok(at) => container_end(bytes@, start + 1, seq![closer], start as int) == Ok::<
                int,
                SpanFault,
            >(at as int) && at <= bytes.len(),
            Err(error) => container_end(bytes@, start + 1, seq![closer], start as int) == Err::<
                int,
                SpanFault,
            >(error@),
        },
{
    let mut closers: Vec<u8> = Vec::new();
    closers.push(closer);
    let mut cursor: usize = start + 1;
    proof {
        assert(closers@ =~= seq![closer]);
    }
    while cursor < bytes.len()
        invariant
            start < cursor <= bytes.len(),
            closers.len() > 0,
            container_end(bytes@, start + 1, seq![closer], start as int) == container_end(
                bytes@,
                cursor as int,
                closers@,
                start as int,
            ),
        decreases bytes.len() - cursor,
    {
        let byte: u8 = bytes[cursor];
        if byte == 0x22 {
            match scan_json_string_end(bytes, cursor) {
                Ok(next) => {
                    cursor = next;
                },
                Err(error) => {
                    return Err(error);
                },
            }
        } else if byte == 0x7b {
            closers.push(0x7d);
            cursor = cursor + 1;
        } else if byte == 0x5b {
            closers.push(0x5d);
            cursor = cursor + 1;
        } else if byte == 0x7d || byte == 0x5d {
            if closers[closers.len() - 1] != byte {
                return Err(SpanError::MismatchedDelimiter(cursor));
            }
            if closers.len() == 1 {
                return Ok(cursor + 1);
            }
            let ghost before = closers@;
            closers.pop();
            proof {
                assert(closers@ =~= before.drop_last());
            }
            cursor = cursor + 1;
        } else {
            cursor = cursor + 1;
        }
    }
    Err(SpanError::UnterminatedValue(start))
}

/// The position behind the JSON value that starts at `start`, whitespace
/// skipped.
pub fn scan_json_value_end(bytes: &[u8], start: usize) -> (end: Result<usize, SpanError>)
    ensures
        match end {
            Ok(at) => value_end(bytes@, start as int) == Ok::<int, SpanFault>(at as int) && at
                <= bytes.len(),
            Err(error) => value_end(bytes@, start as int) == Err::<int, SpanFault>(error@),
        },
{
    let from: usize = skip_json_whitespace(bytes, start);
    if from >= bytes.len() {
        Err(SpanError::ExpectedValue)
    } else if bytes[from] == 0x22 {
        scan_json_string_end(bytes, from)
    } else if bytes[from] == 0x7b {
        scan_container_end(bytes, from, 0x7d)
    } else if bytes[from] == 0x5b {
        scan_container_end(bytes, from, 0x5d)
    } else {
        let mut cursor: usize = from;
        while cursor < bytes.len() && !(bytes[cursor] == 0x20 || bytes[cursor] == 0x09
            || bytes[cursor] == 0x0d || bytes[cursor] == 0x0a || bytes[cursor] == 0x2c
            || bytes[cursor] == 0x7d || bytes[cursor] == 0x5d)
            invariant
                from <= cursor <= bytes.len(),
                literal_end(bytes@, from as int) == literal_end(bytes@, cursor as int),
            decreases bytes.len() - cursor,
        {
            cursor = cursor + 1;
        }
        Ok(cursor)
    }
}

/// `found` members, then what the scan of the rest gives.
pub open spec fn behind(
    found: Seq<MemberSpan>,
    rest: Result<Seq<MemberSpan>, SpanFault>,
) -> Result<Seq<MemberSpan>, SpanFault> {
    match rest {
        Ok(more) => Ok(found + more),
        Err(fault) => Err(fault),
    }
}

/// The views of a list of members.
pub open spec fn member_views(members: Seq<JsonObjectMember>) -> Seq<MemberSpan> {
    members.map_values(|m: JsonObjectMember| m@)
}

/// The members of the JSON object that opens at byte `open` of `content`.
pub fn parse_json_object_members(content: &str, open: usize) -> (members: Result<
    Vec<JsonObjectMember>,
    SpanError,
>)
    ensures
        match members {
            Ok(list) => object_members(encode_utf8(content@), open as int) == Ok::<
                Seq<MemberSpan>,
                SpanFault,
            >(member_views(list@)) && members_in_line(
                encode_utf8(content@),
                member_views(list@),
            ),
            Err(error) => object_members(encode_utf8(content@), open as int) == Err::<
                Seq<MemberSpan>,
                SpanFault,
            >(error@),
        },
{
    let bytes: &[u8] = content.as_bytes();
    let ghost all = encode_utf8(content@);
    if open >= bytes.len() || bytes[open] != 0x7b {
        return Err(SpanError::ExpectedObject(open));
    }
    let mut members: Vec<JsonObjectMember> = Vec::new();
    let mut cursor: usize = open + 1;
    proof {
        encode_utf8_valid_utf8(content@);
        if members_from(all, open + 1) is Ok {
            lemma_members_in_line(all, open + 1);
        }
        assert(match members_from(all, cursor as int) {
            Ok(more) => member_views(members@) + more =~= more,
            Err(_) => true,
        });
    }
    loop
        invariant
            open < cursor <= bytes.len(),
            bytes@ == all,
            all == encode_utf8(content@),
            valid_utf8(all),
            byte_is(all, open as int, 0x7b),
            object_members(all, open as int) is Ok ==> members_in_line(
                all,
                object_members(all, open as int)->Ok_0,
            ),
            object_members(all, open as int) == behind(
                member_views(members@),
                members_from(all, cursor as int),
            ),
        decreases bytes.len() - cursor,
    {
        let prefix_start: usize = cursor;
        let key_start: usize = skip_json_whitespace(bytes, cursor);
        if key_start < bytes.len() && bytes[key_start] == 0x7d {
            proof {
                assert(member_views(members@) + Seq::<MemberSpan>::empty() =~= member_views(
                    members@,
                ));
            }
            return Ok(members);
        }
        let key_end: usize = match scan_json_string_end(bytes, key_start) {
            Ok(end) => end,
            Err(error) => {
                return Err(error);
            },
        };
        proof {
            after_quote_bounds(all, key_start + 1);
            lemma_ascii_boundary(all, key_start as int);
            lemma_ascii_boundary(all, key_end - 1);
        }
        let key: String = match decode_json_string(slice_between(content, key_start, key_end)) {
            Ok(key) => key,
            Err(message) => {
                return Err(SpanError::InvalidKey(message));
            },
        };
        let colon: usize = skip_json_whitespace(bytes, key_end);
        if colon >= bytes.len() || bytes[colon] != 0x3a {
            return Err(SpanError::ExpectedColon(colon));
        }
        let value_start: usize = skip_json_whitespace(bytes, colon + 1);
        let value_end: usize = match scan_json_value_end(bytes, value_start) {
            Ok(end) => end,
            Err(error) => {
                return Err(error);
            },
        };
        let next: usize = skip_json_whitespace(bytes, value_end);
        proof {
            member_moves_on(all, cursor as int);
        }
        let ghost found = member_views(members@);
        if next < bytes.len() && bytes[next] == 0x2c {
            let ghost rest = members_from(all, next + 1);
            members.push(
                JsonObjectMember { prefix_start, key, value_start, value_end, comma: Some(next) },
            );
            proof {
                let last = members@.last()@;
                assert(member_views(members@) =~= found.push(last));
                if rest is Ok {
                    assert(found + (seq![last] + rest->Ok_0) =~= found.push(last) + rest->Ok_0);
                }
            }
            cursor = next + 1;
        } else if next < bytes.len() && bytes[next] == 0x7d {
            members.push(
                JsonObjectMember { prefix_start, key, value_start, value_end, comma: None },
            );
            proof {
                let last = members@.last()@;
                assert(member_views(members@) =~= found + seq![last]);
            }
            return Ok(members);
        } else {
            return Err(SpanError::ExpectedSeparator(next));
        }
    }
}

/// The last member with the key `name`.
pub open spec fn last_named(members: Seq<MemberSpan>, name: Seq<char>) -> Option<MemberSpan>
    decreases members.len(),
{
    if members.len() == 0 {
        None
    } else if members.last().key == name {
        Some(members.last())
    } else {
        last_named(members.drop_last(), name)
    }
}

/// Which members have a key that names one of the `applied` paths.
pub open spec fn selection(members: Seq<MemberSpan>, applied: Seq<String>) -> Seq<bool> {
    Seq::new(members.len(), |i: int| paths::lists_place(applied, members[i].key))
}

/// The members of the `changes` object: the value of the last root member of
/// that name.
pub open spec fn change_members(bytes: Seq<u8>) -> Result<Seq<MemberSpan>, SpanFault> {
    match object_members(bytes, after_space(bytes, 0)) {
        Err(fault) => Err(fault),
        Ok(root) => match last_named(root, "changes"@) {
            None => Err(SpanFault::MissingChanges),
            Some(changes) => object_members(bytes, changes.value_start),
        },
    }
}

/// The bytes of a log without the applied members of its `changes` object.
pub open spec fn without_applied(bytes: Seq<u8>, applied: Seq<String>) -> Result<
    Seq<u8>,
    SpanFault,
> {
    match change_members(bytes) {
        Err(fault) => Err(fault),
        Ok(members) => Ok(
            spliced(bytes, removed_spans(members, selection(members, applied), 0), 0),
        ),
    }
}

fn find_last_named(members: &Vec<JsonObjectMember>, name: &str) -> (start: Option<usize>)
    ensures
        match start {
            Some(at) => last_named(member_views(members@), name@) matches Some(m) && m.value_start
                == at,
            None => last_named(member_views(members@), name@) is None,
        },
{
    let ghost all = member_views(members@);
    let mut i: usize = members.len();
    proof {
        assert(all.take(i as int) =~= all);
    }
    while i > 0
        invariant
            i <= members.len(),
            all == member_views(members@),
            last_named(all, name@) == last_named(all.take(i as int), name@),
        decreases i,
    {
        proof {
            assert(all.take(i as int).last() == members@[i - 1]@);
            assert(all.take(i as int).drop_last() =~= all.take(i - 1));
        }
        if same_text(members[i - 1].key.as_str(), name) {
            return Some(members[i - 1].value_start);
        }
        i = i - 1;
    }
    None
}

fn select_applied(members: &Vec<JsonObjectMember>, applied: &Vec<String>) -> (selected: Vec<bool>)
    ensures
        selected@ == selection(member_views(members@), applied@),
{
    let mut selected: Vec<bool> = Vec::new();
    let mut i: usize = 0;
    while i < members.len()
        invariant
            i <= members.len(),
            selected.len() == i,
            forall|k: int|
                0 <= k < i ==> #[trigger] selected@[k] == paths::lists_place(
                    applied@,
                    members@[k].key@,
                ),
        decreases members.len() - i,
    {
        selected.push(paths::holds_path(applied, members[i].key.as_str()));
        i = i + 1;
    }
    proof {
        assert(selected@ =~= selection(member_views(members@), applied@));
    }
    selected
}

/// The span that goes with the selected members `run_start..run_stop`.
fn span_of_run(
    members: &Vec<JsonObjectMember>,
    run_start: usize,
    run_stop: usize,
    Ghost(bytes): Ghost<Seq<u8>>,
) -> (span: (usize, usize))
    requires
        valid_utf8(bytes),
        members_in_line(bytes, member_views(members@)),
        run_start < run_stop <= members.len(),
    ensures
        (span.0 as int, span.1 as int) == run_span(
            member_views(members@),
            run_start as int,
            run_stop as int,
        ),
        span.0 < span.1 < bytes.len(),
        is_char_boundary(bytes, span.0 as int),
        is_char_boundary(bytes, span.1 as int),
        run_stop == members.len() && run_start > 0 ==> member_views(members@)[run_start
            - 1].prefix_start <= span.0,
        run_stop < members.len() || run_start == 0 ==> member_views(
            members@,
        )[run_start as int].prefix_start == span.0,
        run_stop < members.len() ==> member_views(members@)[run_stop as int].prefix_start == span.1,
{
    let ghost list = member_views(members@);
    proof {
        assert(list[run_start as int] == members@[run_start as int]@);
        assert(list[run_stop - 1] == members@[run_stop - 1]@);
        lemma_line_order(bytes, list, run_start as int, run_stop - 1);
    }
    if run_stop < members.len() {
        let start: usize = members[run_start].prefix_start;
        let end: usize = match members[run_stop - 1].comma {
            Some(comma) => comma + 1,
            None => start,
        };
        proof {
            assert(list[run_stop - 1 + 1].prefix_start == list[run_stop - 1].comma->0 + 1);
            lemma_ascii_boundary(bytes, start - 1);
            lemma_ascii_boundary(bytes, end - 1);
            lemma_ascii_boundary(bytes, list[run_stop as int].value_end);
            assert(list[run_stop as int].prefix_start < bytes.len());
        }
        (start, end)
    } else if run_start == 0 {
        let start: usize = members[0].prefix_start;
        let end: usize = members[run_stop - 1].value_end;
        proof {
            lemma_ascii_boundary(bytes, start - 1);
            lemma_ascii_boundary(bytes, end as int);
        }
        (start, end)
    } else {
        proof {
            assert(list[run_start - 1] == members@[run_start - 1]@);
            assert(list[run_start - 1 + 1].prefix_start == list[run_start - 1].comma->0 + 1);
        }
        let start: usize = match members[run_start - 1].comma {
            Some(comma) => comma,
            None => 0,
        };
        let end: usize = members[run_stop - 1].value_end;
        proof {
            lemma_ascii_boundary(bytes, start as int);
            lemma_ascii_boundary(bytes, end as int);
        }
        (start, end)
    }
}

/// Cuts the selected members of an object out of `content`.
fn cut_members(content: &str, members: &Vec<JsonObjectMember>, selected: &Vec<bool>) -> (output:
    String)
    requires
        members_in_line(encode_utf8(content@), member_views(members@)),
        selected.len() == members.len(),
    ensures
        encode_utf8(output@) == spliced(
            encode_utf8(content@),
            removed_spans(member_views(members@), selected@, 0),
            0,
        ),
{
    let ghost bytes = encode_utf8(content@);
    let ghost list = member_views(members@);
    let ghost cut = removed_spans(list, selected@, 0);
    let mut output: String = String::new();
    let mut copied: usize = 0;
    let mut cursor: usize = 0;
    let length: usize = content.as_bytes().len();
    proof {
        encode_utf8_valid_utf8(content@);
        is_char_boundary_start_end_of_seq(bytes);
        assert(encode_utf8(output@) =~= Seq::<u8>::empty());
        assert(encode_utf8(output@) + spliced(bytes, cut, 0) =~= spliced(bytes, cut, 0));
    }
    while cursor < members.len()
        invariant
            cursor <= members.len() == selected.len(),
            bytes == encode_utf8(content@),
            length == bytes.len(),
            valid_utf8(bytes),
            list == member_views(members@),
            members_in_line(bytes, list),
            copied <= length,
            is_char_boundary(bytes, copied as int),
            cursor < list.len() ==> copied <= list[cursor as int].prefix_start,
            cursor < list.len() && cursor > 0 && !selected@[cursor - 1] ==> copied
                <= list[cursor - 1].prefix_start,
            0 < cursor < list.len() && selected@[cursor - 1] ==> !selected@[cursor as int],
            cut == removed_spans(list, selected@, 0),
            spliced(bytes, cut, 0) == encode_utf8(output@) + spliced(
                bytes,
                removed_spans(list, selected@, cursor as int),
                copied as int,
            ),
        decreases members.len() - cursor,
    {
        proof {
            assert(list[cursor as int] == members@[cursor as int]@);
        }
        if !selected[cursor] {
            proof {
                if cursor + 1 < list.len() {
                    lemma_line_order(bytes, list, cursor as int, cursor + 1);
                }
            }
            cursor = cursor + 1;
            continue ;
        }
        let run_start: usize = cursor;
        proof {
            run_end_bounds(selected@, run_start as int);
        }
        while cursor < members.len() && selected[cursor]
            invariant
                run_start <= cursor <= members.len() == selected.len(),
                run_end(selected@, run_start as int) == run_end(selected@, cursor as int),
            decreases members.len() - cursor,
        {
            cursor = cursor + 1;
        }
        let run_stop: usize = cursor;
        proof {
            assert(run_stop == run_end(selected@, run_start as int));
            assert(list[run_stop - 1] == members@[run_stop - 1]@);
        }
        let ghost rest = removed_spans(list, selected@, run_stop as int);
        let (start, end): (usize, usize) = span_of_run(
            members,
            run_start,
            run_stop,
            Ghost(bytes),
        );
        proof {
            let here = removed_spans(list, selected@, run_start as int);
            assert(here == seq![(start as int, end as int)] + rest);
            assert(here.drop_first() =~= rest);
        }
        let part: &str = slice_between(content, copied, start);
        let ghost before = output@;
        output.append(part);
        proof {
            lemma_encode_append(before, part@);
            assert(encode_utf8(before) + (bytes.subrange(copied as int, start as int) + spliced(
                bytes,
                rest,
                end as int,
            )) =~= encode_utf8(output@) + spliced(bytes, rest, end as int));
        }
        copied = end;
    }
    let part: &str = slice_between(content, copied, length);
    let ghost before = output@;
    output.append(part);
    proof {
        lemma_encode_append(before, part@);
    }
    output
}

pub proof fn lemma_line_order(bytes: Seq<u8>, members: Seq<MemberSpan>, i: int, j: int)
    requires
        members_in_line(bytes, members),
        0 <= i <= j < members.len(),
    ensures
        members[i].prefix_start <= members[j].prefix_start,
    decreases j - i,
{
    if i < j {
        lemma_line_order(bytes, members, i, j - 1);
        let m = members[j - 1];
        assert(members[j - 1 + 1].prefix_start == m.comma->0 + 1);
    }
}

/// Splices every `changes` member whose key names one of `applied_paths` out
/// of the log text, and leaves all other bytes untouched. A text that is not
/// an object with a `changes` object is rejected.
pub fn remove_applied_change_spans(content: &str, applied_paths: &Vec<String>) -> (output: Result<
    String,
    SpanError,
>)
    ensures
        match output {
            Ok(text) => without_applied(encode_utf8(content@), applied_paths@) == Ok::<
                Seq<u8>,
                SpanFault,
            >(encode_utf8(text@)),
            Err(error) => without_applied(encode_utf8(content@), applied_paths@) == Err::<
                Seq<u8>,
                SpanFault,
            >(error@),
        },
{
    let root_open: usize = skip_json_whitespace(content.as_bytes(), 0);
    let root: Vec<JsonObjectMember> = match parse_json_object_members(content, root_open) {
        Ok(members) => members,
        Err(error) => {
            return Err(error);
        },
    };
    let open: usize = match find_last_named(&root, "changes") {
        Some(open) => open,
        None => {
            return Err(SpanError::MissingChanges);
        },
    };
    let members: Vec<JsonObjectMember> = match parse_json_object_members(content, open) {
        Ok(members) => members,
        Err(error) => {
            return Err(error);
        },
    };
    let selected: Vec<bool> = select_applied(&members, applied_paths);
    Ok(cut_members(content, &members, &selected))
}

proof fn lemma_no_run(members: Seq<MemberSpan>, selected: Seq<bool>, from: int)
    requires
        0 <= from,
        forall|i: int| 0 <= i < selected.len() ==> !(#[trigger] selected[i]),
    ensures
        removed_spans(members, selected, from) == Seq::<(int, int)>::empty(),
    decreases selected.len() - from,
{
    if from < selected.len() {
        lemma_no_run(members, selected, from + 1);
    }
}

/// A log none of whose `changes` keys names an applied path comes out
/// unchanged, byte for byte.
pub proof fn unapplied_log_is_unchanged(bytes: Seq<u8>, applied: Seq<String>)
    requires
        change_members(bytes) is Ok,
        forall|i: int|
            0 <= i < change_members(bytes)->Ok_0.len() ==> !paths::lists_place(
                applied,
                (#[trigger] change_members(bytes)->Ok_0[i]).key,
            ),
    ensures
        without_applied(bytes, applied) == Ok::<Seq<u8>, SpanFault>(bytes),
{
    let members = change_members(bytes)->Ok_0;
    lemma_no_run(members, selection(members, applied), 0);
    assert(bytes.subrange(0, bytes.len() as int) =~= bytes);
}

} // verus!
