//! Version texts: bumping, displaying, and matching requirements.

use crate::text;
use crate::text::{chars_of, decimal_text, joined_text, same_text, split_text, text_of};
use crate::update_type::UpdateType;
use vstd::prelude::*;
use vstd::string::*;

verus! {

/// The version of a project that has none.
pub const DEFAULT_VERSION: &'static str = "0.0.0";

/// A decimal digit.
pub open spec fn is_digit(c: char) -> bool {
    '0' <= c <= '9'
}

/// The number that a text of digits writes.
pub open spec fn digits_value(digits: Seq<char>) -> nat
    decreases digits.len(),
{
    if digits.len() == 0 {
        0
    } else {
        digits_value(digits.drop_last()) * 10 + (digits.last() as nat - '0' as nat) as nat
    }
}

/// The number that a text writes: one or more digits, up to `u64::MAX`.
pub open spec fn number(text: Seq<char>) -> Option<u64> {
    if text.len() > 0 && (forall|i: int| 0 <= i < text.len() ==> is_digit(#[trigger] text[i]))
        && digits_value(text) <= u64::MAX {
        Some(digits_value(text) as u64)
    } else {
        None
    }
}

/// More digits never make a number smaller.
proof fn lemma_prefix_value(digits: Seq<char>, n: int)
    requires
        0 <= n <= digits.len(),
    ensures
        digits_value(digits.take(n)) <= digits_value(digits),
    decreases digits.len() - n,
{
    if n < digits.len() {
        let longer = digits.take(n + 1);
        assert(longer.drop_last() =~= digits.take(n));
        lemma_prefix_value(digits, n + 1);
        assert(digits_value(digits.take(n)) <= digits_value(digits.take(n)) * 10);
    } else {
        assert(digits.take(n) =~= digits);
    }
}

/// Reads the number that `text` writes.
pub fn parse_number(text: &str) -> (value: Option<u64>)
    ensures
        value == number(text@),
{
    let chars: Vec<char> = chars_of(text);
    if chars.len() == 0 {
        return None;
    }
    let mut value: u64 = 0;
    let mut i: usize = 0;
    while i < chars.len()
        invariant
            i <= chars@.len(),
            chars@ == text@,
            forall|k: int| 0 <= k < i ==> is_digit(#[trigger] chars@[k]),
            value == digits_value(chars@.take(i as int)),
        decreases chars@.len() - i,
    {
        let c: char = chars[i];
        let ghost longer = chars@.take(i as int + 1);
        proof {
            assert(longer.drop_last() =~= chars@.take(i as int));
            assert(longer.last() == c);
        }
        if c < '0' || '9' < c {
            return None;
        }
        let digit: u64 = c as u64 - '0' as u64;
        proof {
            lemma_prefix_value(chars@, i as int + 1);
            assert(digits_value(longer) == value * 10 + digit);
        }
        if value > (u64::MAX - digit) / 10 {
            proof {
                assert(value * 10 + digit > u64::MAX) by (nonlinear_arith)
                    requires
                        value > (u64::MAX - digit) / 10,
                        digit <= 9,
                ;
            }
            return None;
        }
        proof {
            assert(value * 10 + digit <= u64::MAX) by (nonlinear_arith)
                requires
                    value <= (u64::MAX - digit) / 10,
                    digit <= 9,
            ;
        }
        value = value * 10 + digit;
        i = i + 1;
    }
    proof {
        assert(chars@.take(i as int) =~= text@);
    }
    Some(value)
}

/// A version: three numbers, and build metadata with its `+`.
#[derive(Debug)]
pub struct Version {
    pub major: u64,
    pub minor: u64,
    pub patch: u64,
    pub build: String,
}

/// [`Version`] over mathematical values.
#[verifier::ext_equal]
pub struct VersionView {
    pub major: nat,
    pub minor: nat,
    pub patch: nat,
    pub build: Seq<char>,
}

impl View for Version {
    type V = VersionView;

    open spec fn view(&self) -> VersionView {
        VersionView {
            major: self.major as nat,
            minor: self.minor as nat,
            patch: self.patch as nat,
            build: self.build@,
        }
    }
}

/// The position of the first `c`, or the length where there is none.
pub open spec fn first_of(text: Seq<char>, c: char) -> int
    decreases text.len(),
{
    if text.len() == 0 || text[0] == c {
        0
    } else {
        1 + first_of(text.drop_first(), c)
    }
}

/// The version that a text writes: `MAJOR.MINOR.PATCH`, then build metadata
/// from the first `+` on.
pub open spec fn version_of(text: Seq<char>) -> Option<VersionView> {
    let at = first_of(text, '+');
    let pieces = text::split_pieces(text.take(at), '.');
    if pieces.len() == 3 {
        match (number(pieces[0]), number(pieces[1]), number(pieces[2])) {
            (Some(major), Some(minor), Some(patch)) => Some(
                VersionView {
                    major: major as nat,
                    minor: minor as nat,
                    patch: patch as nat,
                    build: text.skip(at),
                },
            ),
            _ => None,
        }
    } else {
        None
    }
}

/// The text of a version.
pub open spec fn version_text(version: VersionView) -> Seq<char> {
    text::decimal(version.major) + "."@ + text::decimal(version.minor) + "."@ + text::decimal(
        version.patch,
    ) + version.build
}

/// A position found from the front is the first one.
proof fn lemma_first_of(text: Seq<char>, c: char, at: int)
    requires
        0 <= at <= text.len(),
        forall|k: int| 0 <= k < at ==> text[k] != c,
        at < text.len() ==> text[at] == c,
    ensures
        first_of(text, c) == at,
    decreases text.len(),
{
    if at > 0 {
        let rest = text.drop_first();
        assert forall|k: int| 0 <= k < at - 1 implies rest[k] != c by {
            assert(rest[k] == text[k + 1]);
        }
        lemma_first_of(rest, c, at - 1);
    }
}

/// Reads the version that `text` writes.
pub fn parse_version(text: &str) -> (version: Option<Version>)
    ensures
        match version {
            Some(v) => version_of(text@) == Some(v@),
            None => version_of(text@) is None,
        },
{
    let chars: Vec<char> = chars_of(text);
    let mut at: usize = 0;
    while at < chars.len() && chars[at] != '+'
        invariant
            at <= chars@.len(),
            chars@ == text@,
            forall|k: int| 0 <= k < at ==> chars@[k] != '+',
        decreases chars@.len() - at,
    {
        at = at + 1;
    }
    proof {
        lemma_first_of(text@, '+', at as int);
    }
    let core: String = text_of(&chars, 0, at);
    let build: String = text_of(&chars, at, chars.len());
    proof {
        assert(core@ =~= text@.take(at as int));
        assert(build@ =~= text@.skip(at as int));
    }
    let pieces: Vec<String> = split_text(core.as_str(), '.');
    let ghost views = text::split_pieces(core@, '.');
    proof {
        assert(views.len() == pieces@.len());
    }
    if pieces.len() != 3 {
        return None;
    }
    proof {
        assert(pieces@[0]@ == views[0]);
        assert(pieces@[1]@ == views[1]);
        assert(pieces@[2]@ == views[2]);
    }
    match (
        parse_number(pieces[0].as_str()),
        parse_number(pieces[1].as_str()),
        parse_number(pieces[2].as_str()),
    ) {
        (Some(major), Some(minor), Some(patch)) => Some(Version { major, minor, patch, build }),
        _ => None,
    }
}

/// The version after a bump: the part that moves grows by one, and the parts
/// behind it start again at zero.
pub open spec fn bumped(version: VersionView, update_type: UpdateType) -> VersionView {
    match update_type {
        UpdateType::Major => VersionView {
            major: version.major + 1,
            minor: 0,
            patch: 0,
            build: version.build,
        },
        UpdateType::Minor => VersionView {
            major: version.major,
            minor: version.minor + 1,
            patch: 0,
            build: version.build,
        },
        UpdateType::Patch => VersionView {
            major: version.major,
            minor: version.minor,
            patch: version.patch + 1,
            build: version.build,
        },
    }
}

/// Whether all three numbers fit in 64 bits.
pub open spec fn fits(version: VersionView) -> bool {
    version.major <= u64::MAX && version.minor <= u64::MAX && version.patch <= u64::MAX
}

/// The text of the version after a bump. A text that writes no version, or one
/// whose moving part is as large as it can be, has none.
pub open spec fn next_version_text(version: Seq<char>, update_type: UpdateType) -> Option<
    Seq<char>,
> {
    match version_of(version) {
        Some(v) => if fits(bumped(v, update_type)) {
            Some(version_text(bumped(v, update_type)))
        } else {
            None
        },
        None => None,
    }
}

/// The text of a version.
fn write_version(version: &Version) -> (text: String)
    ensures
        text@ == version_text(version@),
{
    let mut text: String = decimal_text(version.major);
    text.append(".");
    text.append(decimal_text(version.minor).as_str());
    text.append(".");
    text.append(decimal_text(version.patch).as_str());
    text.append(version.build.as_str());
    text
}

/// A version that cannot be bumped.
#[derive(Debug)]
pub struct InvalidVersion {
    pub version: String,
}

impl InvalidVersion {
    /// What to tell the user.
    pub fn message(&self) -> (message: String)
        ensures
            message@ == "Invalid version: "@ + self.version@,
    {
        joined_text("Invalid version: ", self.version.as_str())
    }
}

/// The version after a bump.
pub fn next_version(version: &str, update_type: UpdateType) -> (result: Result<
    String,
    InvalidVersion,
>)
    ensures
        match result {
            Ok(next) => next_version_text(version@, update_type) == Some(next@),
            Err(invalid) => next_version_text(version@, update_type) is None
                && invalid.version@ == version@,
        },
{
    let parsed: Version = match parse_version(version) {
        Some(v) => v,
        None => {
            return Err(InvalidVersion { version: version.to_string() });
        },
    };
    let moving: u64 = match update_type {
        UpdateType::Major => parsed.major,
        UpdateType::Minor => parsed.minor,
        UpdateType::Patch => parsed.patch,
    };
    if moving == u64::MAX {
        return Err(InvalidVersion { version: version.to_string() });
    }
    let next: Version = match update_type {
        UpdateType::Major => Version {
            major: moving + 1,
            minor: 0,
            patch: 0,
            build: parsed.build,
        },
        UpdateType::Minor => Version {
            major: parsed.major,
            minor: moving + 1,
            patch: 0,
            build: parsed.build,
        },
        UpdateType::Patch => Version {
            major: parsed.major,
            minor: parsed.minor,
            patch: moving + 1,
            build: parsed.build,
        },
    };
    Ok(write_version(&next))
}

/// The text of a version, or the default for a project without one.
pub open spec fn version_or_default(version: Option<&str>) -> Seq<char> {
    match version {
        Some(v) => v@,
        None => DEFAULT_VERSION@,
    }
}

/// The version after a bump; a project without a version starts at `0.0.0`.
pub fn next_version_or_default(version: Option<&str>, update_type: UpdateType) -> (result: Result<
    String,
    InvalidVersion,
>)
    ensures
        match result {
            Ok(next) => next_version_text(version_or_default(version), update_type) == Some(next@),
            Err(invalid) => next_version_text(version_or_default(version), update_type) is None
                && invalid.version@ == version_or_default(version),
        },
{
    match version {
        Some(v) => next_version(v, update_type),
        None => next_version(DEFAULT_VERSION, update_type),
    }
}

/// How a version is displayed.
pub open spec fn version_display(version: Option<&str>) -> Seq<char> {
    match version {
        Some(v) => "v"@ + v@,
        None => "unknown"@,
    }
}

/// How a version is displayed: behind a `v`, or `unknown`.
pub fn format_version_display(version: Option<&str>) -> (display: String)
    ensures
        display@ == version_display(version),
{
    match version {
        Some(v) => joined_text("v", v),
        None => "unknown".to_string(),
    }
}

/// The length of the range prefix of a requirement: everything before the
/// first digit, or nothing where there is no digit.
pub open spec fn prefix_length(requirement: Seq<char>) -> int {
    let at = first_digit(requirement);
    if at < requirement.len() {
        at
    } else {
        0
    }
}

/// The position of the first digit, or the length where there is none.
pub open spec fn first_digit(text: Seq<char>) -> int
    decreases text.len(),
{
    if text.len() == 0 || is_digit(text[0]) {
        0
    } else {
        1 + first_digit(text.drop_first())
    }
}

proof fn lemma_first_digit(text: Seq<char>, at: int)
    requires
        0 <= at <= text.len(),
        forall|k: int| 0 <= k < at ==> !is_digit(#[trigger] text[k]),
        at < text.len() ==> is_digit(text[at]),
    ensures
        first_digit(text) == at,
    decreases text.len(),
{
    if at > 0 {
        let rest = text.drop_first();
        assert forall|k: int| 0 <= k < at - 1 implies !is_digit(#[trigger] rest[k]) by {
            assert(rest[k] == text[k + 1]);
        }
        assert(!is_digit(text[0]));
        lemma_first_digit(rest, at - 1);
    }
}

/// The range prefix of a requirement (`^`, `~`, `>=`, ...) and the version
/// behind it.
pub fn split_version(requirement: &str) -> (parts: (String, String))
    ensures
        parts.0@ == requirement@.take(prefix_length(requirement@)),
        parts.1@ == requirement@.skip(prefix_length(requirement@)),
{
    let chars: Vec<char> = chars_of(requirement);
    let mut at: usize = 0;
    while at < chars.len() && (chars[at] < '0' || '9' < chars[at])
        invariant
            at <= chars@.len(),
            chars@ == requirement@,
            forall|k: int| 0 <= k < at ==> !is_digit(#[trigger] chars@[k]),
        decreases chars@.len() - at,
    {
        at = at + 1;
    }
    proof {
        lemma_first_digit(requirement@, at as int);
    }
    let from: usize = if at < chars.len() {
        at
    } else {
        0
    };
    let prefix: String = text_of(&chars, 0, from);
    let tail: String = text_of(&chars, from, chars.len());
    proof {
        assert(prefix@ =~= requirement@.take(from as int));
        assert(tail@ =~= requirement@.skip(from as int));
    }
    (prefix, tail)
}

/// A requirement moved to another version, under the same range prefix.
pub open spec fn retargeted(requirement: Seq<char>, version: Seq<char>) -> Seq<char> {
    requirement.take(prefix_length(requirement)) + version
}

/// Replaces the version of a requirement and keeps its range prefix.
pub fn replace_version_keep_prefix(requirement: &str, version: &str) -> (moved: String)
    ensures
        moved@ == retargeted(requirement@, version@),
{
    let (prefix, _) = split_version(requirement);
    joined_text(prefix.as_str(), version)
}

/// The numbers of a partial version: one to three, between dots.
pub open spec fn requirement_numbers(tail: Seq<char>) -> Option<Seq<nat>> {
    let pieces = text::split_pieces(tail, '.');
    if pieces.len() <= 3 && forall|i: int|
        0 <= i < pieces.len() ==> number(#[trigger] pieces[i]) is Some {
        Some(Seq::new(pieces.len(), |i: int| number(pieces[i])->0 as nat))
    } else {
        None
    }
}

/// A caret range admits what keeps the leftmost number that is not zero (or,
/// of all zeros, the last one written), and is not older.
pub open spec fn caret_admits(numbers: Seq<nat>, version: VersionView) -> bool {
    &&& version.major == numbers[0]
    &&& numbers.len() > 1 && numbers[0] == 0 ==> version.minor == numbers[1]
    &&& numbers.len() > 1 && numbers[0] > 0 ==> version.minor >= numbers[1]
    &&& numbers.len() > 2 && numbers[0] == 0 && numbers[1] == 0 ==> version.patch == numbers[2]
    &&& numbers.len() > 2 && (numbers[0] > 0 || numbers[1] > 0) ==> version.minor > numbers[1]
        || version.patch >= numbers[2]
}

/// A tilde range admits later patches of the version.
pub open spec fn tilde_admits(numbers: Seq<nat>, version: VersionView) -> bool {
    &&& version.major == numbers[0]
    &&& numbers.len() > 1 ==> version.minor == numbers[1]
    &&& numbers.len() > 2 ==> version.patch >= numbers[2]
}

/// An exact requirement admits the numbers it writes.
pub open spec fn exact_admits(numbers: Seq<nat>, version: VersionView) -> bool {
    &&& version.major == numbers[0]
    &&& numbers.len() > 1 ==> version.minor == numbers[1]
    &&& numbers.len() > 2 ==> version.patch == numbers[2]
}

/// Whether a requirement admits a version: caret (also without a prefix),
/// tilde and exact requirements of one to three numbers.
pub open spec fn admits(requirement: Seq<char>, version: Seq<char>) -> bool {
    let at = prefix_length(requirement);
    let prefix = requirement.take(at);
    match (requirement_numbers(requirement.skip(at)), version_of(version)) {
        (Some(numbers), Some(v)) => if prefix == ""@ || prefix == "^"@ {
            caret_admits(numbers, v)
        } else if prefix == "~"@ {
            tilde_admits(numbers, v)
        } else {
            prefix == "="@ && exact_admits(numbers, v)
        },
        _ => false,
    }
}

/// The numbers of a partial version.
fn parse_requirement_numbers(tail: &str) -> (numbers: Option<Vec<u64>>)
    ensures
        match numbers {
            Some(n) => n@.len() > 0 && requirement_numbers(tail@) == Some(
                n@.map_values(|x: u64| x as nat),
            ),
            None => requirement_numbers(tail@) is None,
        },
{
    let pieces: Vec<String> = split_text(tail, '.');
    let ghost views = text::split_pieces(tail@, '.');
    proof {
        text::split_pieces_not_empty(tail@, '.');
        assert(views.len() == pieces@.len());
        assert forall|k: int| 0 <= k < pieces@.len() implies (#[trigger] pieces@[k])@
            == views[k] by {}
    }
    if pieces.len() > 3 {
        return None;
    }
    let mut numbers: Vec<u64> = Vec::new();
    let mut i: usize = 0;
    while i < pieces.len()
        invariant
            i <= pieces@.len(),
            views == text::split_pieces(tail@, '.'),
            views.len() == pieces@.len(),
            forall|k: int| 0 <= k < pieces@.len() ==> (#[trigger] pieces@[k])@ == views[k],
            numbers@.len() == i,
            forall|k: int|
                0 <= k < i ==> number(#[trigger] views[k]) == Some(numbers@[k]),
        decreases pieces@.len() - i,
    {
        match parse_number(pieces[i].as_str()) {
            Some(n) => numbers.push(n),
            None => {
                proof {
                    assert(number(views[i as int]) is None);
                }
                return None;
            },
        }
        i = i + 1;
    }
    proof {
        assert(Seq::new(views.len(), |k: int| number(views[k])->0 as nat) =~= numbers@.map_values(
            |x: u64| x as nat,
        ));
    }
    Some(numbers)
}

fn caret_matches(numbers: &Vec<u64>, version: &Version) -> (matched: bool)
    requires
        0 < numbers@.len() <= 3,
    ensures
        matched == caret_admits(numbers@.map_values(|x: u64| x as nat), version@),
{
    if version.major != numbers[0] {
        return false;
    }
    if numbers.len() > 1 {
        if numbers[0] == 0 && version.minor != numbers[1] {
            return false;
        }
        if numbers[0] > 0 && version.minor < numbers[1] {
            return false;
        }
    }
    if numbers.len() > 2 {
        if numbers[0] == 0 && numbers[1] == 0 {
            return version.patch == numbers[2];
        }
        return version.minor > numbers[1] || version.patch >= numbers[2];
    }
    true
}

/// Whether a requirement admits a version.
pub fn requirement_admits(requirement: &str, version: &str) -> (admitted: bool)
    ensures
        admitted == admits(requirement@, version@),
{
    let (prefix, tail) = split_version(requirement);
    match (parse_requirement_numbers(tail.as_str()), parse_version(version)) {
        (Some(numbers), Some(v)) => {
            let ghost values = numbers@.map_values(|x: u64| x as nat);
            proof {
                assert(values.len() == numbers@.len());
            }
            if same_text(prefix.as_str(), "") || same_text(prefix.as_str(), "^") {
                caret_matches(&numbers, &v)
            } else if same_text(prefix.as_str(), "~") {
                v.major == numbers[0] && (numbers.len() <= 1 || v.minor == numbers[1]) && (
                numbers.len() <= 2 || v.patch >= numbers[2])
            } else {
                same_text(prefix.as_str(), "=") && v.major == numbers[0] && (numbers.len() <= 1
                    || v.minor == numbers[1]) && (numbers.len() <= 2 || v.patch == numbers[2])
            }
        },
        _ => false,
    }
}

/// Whether a requirement has to move with a package: it does not admit the new
/// version, and moving it changes its text.
pub open spec fn needs_rewrite(requirement: Seq<char>, version: Seq<char>) -> bool {
    !admits(requirement, version) && retargeted(requirement, version) != requirement
}

/// Whether a requirement has to move with a package.
pub fn requirement_needs_rewrite(requirement: &str, version: &str) -> (needed: bool)
    ensures
        needed == needs_rewrite(requirement@, version@),
{
    !requirement_admits(requirement, version) && !same_text(
        replace_version_keep_prefix(requirement, version).as_str(),
        requirement,
    )
}

/// The decimal text of a number writes that number.
proof fn lemma_decimal_number(n: nat)
    ensures
        text::decimal(n).len() > 0,
        forall|i: int| 0 <= i < text::decimal(n).len() ==> is_digit(#[trigger] text::decimal(n)[i]),
        digits_value(text::decimal(n)) == n,
    decreases n,
{
    let digits = text::decimal(n);
    if n < 10 {
        assert(digits =~= seq![text::digit_char(n)]);
        assert(digits.drop_last() =~= Seq::empty());
        assert(digits_value(Seq::empty()) == 0);
    } else {
        lemma_decimal_number(n / 10);
        assert(digits.drop_last() =~= text::decimal(n / 10));
        assert forall|i: int| 0 <= i < digits.len() implies is_digit(#[trigger] digits[i]) by {
            if i < digits.len() - 1 {
                assert(digits[i] == text::decimal(n / 10)[i]);
            }
        }
    }
}

/// A text without a separator is one piece, and one more separator starts one
/// more piece.
proof fn lemma_split_append(before: Seq<char>, piece: Seq<char>, separator: char)
    requires
        forall|i: int| 0 <= i < piece.len() ==> #[trigger] piece[i] != separator,
    ensures
        text::split_pieces(piece, separator) == seq![piece],
        text::split_pieces(before.push(separator) + piece, separator) == text::split_pieces(
            before,
            separator,
        ).push(piece),
    decreases piece.len(),
{
    let whole = before.push(separator) + piece;
    if piece.len() == 0 {
        assert(whole =~= before.push(separator));
        assert(whole.drop_last() =~= before);
        assert(piece =~= Seq::empty());
        assert(text::split_pieces(piece, separator) =~= seq![piece]);
    } else {
        let less = piece.drop_last();
        assert forall|i: int| 0 <= i < less.len() implies #[trigger] less[i] != separator by {
            assert(less[i] == piece[i]);
        }
        lemma_split_append(before, less, separator);
        assert(whole.drop_last() =~= before.push(separator) + less);
        assert(whole.last() == piece.last());
        assert(piece.last() != separator) by {
            assert(piece[piece.len() - 1] != separator);
        }
        assert(less.push(piece.last()) =~= piece);
        let earlier = text::split_pieces(before, separator);
        assert(earlier.push(less).drop_last() =~= earlier);
        assert(text::split_pieces(piece, separator) =~= seq![piece]);
    }
}

/// The text of a version writes that version.
pub proof fn version_text_round_trip(version: VersionView)
    requires
        fits(version),
        version.build.len() == 0 || version.build[0] == '+',
    ensures
        version_of(version_text(version)) == Some(version),
{
    reveal_strlit(".");
    let major = text::decimal(version.major);
    let minor = text::decimal(version.minor);
    let patch = text::decimal(version.patch);
    lemma_decimal_number(version.major);
    lemma_decimal_number(version.minor);
    lemma_decimal_number(version.patch);
    let core = (major.push('.') + minor).push('.') + patch;
    let whole = version_text(version);
    assert("."@ =~= seq!['.']);
    assert(whole =~= core + version.build);
    let at = core.len() as int;
    assert forall|k: int| 0 <= k < at implies whole[k] != '+' by {
        assert(whole[k] == core[k]);
        if k < major.len() {
            assert(core[k] == major[k]);
        } else if k > major.len() && k < major.len() + 1 + minor.len() {
            assert(core[k] == minor[k - major.len() - 1]);
        } else if k > major.len() + 1 + minor.len() {
            assert(core[k] == patch[k - major.len() - minor.len() - 2]);
        }
    }
    if version.build.len() > 0 {
        assert(whole[at] == version.build[0]);
    }
    lemma_first_of(whole, '+', at);
    assert(whole.take(at) =~= core);
    assert(whole.skip(at) =~= version.build);
    lemma_split_append(Seq::empty(), major, '.');
    lemma_split_append(major, minor, '.');
    lemma_split_append(major.push('.') + minor, patch, '.');
    assert(text::split_pieces(core, '.') =~= seq![major, minor, patch]);
}

/// A bumped version is a later version: its text writes it, it keeps the build
/// metadata, and the part that moved is the first that differs.
pub proof fn next_version_is_later(version: Seq<char>, update_type: UpdateType)
    requires
        next_version_text(version, update_type) is Some,
    ensures
        ({
            let before = version_of(version)->0;
            let after = bumped(before, update_type);
            &&& version_of(next_version_text(version, update_type)->0) == Some(after)
            &&& after.build == before.build
            &&& comes_before(before, after)
        }),
{
    let before = version_of(version)->0;
    let at = first_of(version, '+');
    lemma_first_of_bounds(version, '+');
    assert(before.build == version.skip(at));
    version_text_round_trip(bumped(before, update_type));
}

/// The order of versions by their numbers.
pub open spec fn comes_before(left: VersionView, right: VersionView) -> bool {
    left.major < right.major || (left.major == right.major && (left.minor < right.minor || (
    left.minor == right.minor && left.patch < right.patch)))
}

/// Where a first position is inside the text, the character stands there.
proof fn lemma_first_of_bounds(text: Seq<char>, c: char)
    ensures
        0 <= first_of(text, c) <= text.len(),
        first_of(text, c) < text.len() ==> text[first_of(text, c)] == c,
    decreases text.len(),
{
    if text.len() > 0 && text[0] != c {
        lemma_first_of_bounds(text.drop_first(), c);
    }
}

/// A requirement that was moved to a version admits it: where its prefix is
/// one that is understood, and the version has no build metadata.
pub proof fn moved_requirement_admits(requirement: Seq<char>, version: Seq<char>)
    requires
        version_of(version) is Some,
        version_of(version)->0.build.len() == 0,
        ({
            let prefix = requirement.take(prefix_length(requirement));
            prefix == ""@ || prefix == "^"@ || prefix == "~"@ || prefix == "="@
        }),
    ensures
        admits(retargeted(requirement, version), version),
        !needs_rewrite(retargeted(requirement, version), version),
{
    reveal_strlit("");
    reveal_strlit("^");
    reveal_strlit("~");
    reveal_strlit("=");
    assert(""@ =~= Seq::empty());
    assert("^"@ =~= seq!['^']);
    assert("~"@ =~= seq!['~']);
    assert("="@ =~= seq!['=']);
    let prefix = requirement.take(prefix_length(requirement));
    let moved = retargeted(requirement, version);
    let at = prefix.len() as int;
    lemma_first_of_bounds(version, '+');
    assert(version.skip(first_of(version, '+')).len() == 0);
    assert(version.take(first_of(version, '+')) =~= version);
    let pieces = text::split_pieces(version, '.');
    lemma_first_piece(version, '.');
    assert(number(pieces[0]) is Some);
    assert(is_digit(pieces[0][0]));
    assert(version.len() > 0 && version[0] == pieces[0][0]);
    assert forall|k: int| 0 <= k < at implies !is_digit(#[trigger] moved[k]) by {
        assert(moved[k] == prefix[k]);
    }
    assert(moved[at] == version[0]);
    lemma_first_digit(moved, at);
    assert(prefix_length(moved) == at);
    assert(moved.take(at) =~= prefix);
    assert(moved.skip(at) =~= version);
    assert forall|i: int| 0 <= i < pieces.len() implies number(#[trigger] pieces[i]) is Some by {
        assert(i == 0 || i == 1 || i == 2);
    }
}

/// The first piece stands at the front of the text.
proof fn lemma_first_piece(text: Seq<char>, separator: char)
    ensures
        text::split_pieces(text, separator).len() > 0,
        text::split_pieces(text, separator)[0].is_prefix_of(text),
    decreases text.len(),
{
    let pieces = text::split_pieces(text, separator);
    if text.len() > 0 {
        lemma_first_piece(text.drop_last(), separator);
        let earlier = text::split_pieces(text.drop_last(), separator);
        let first = pieces[0];
        if text.last() == separator || earlier.len() > 1 {
            assert(first == earlier[0]);
            assert(first =~= text.take(first.len() as int));
        } else {
            assert(earlier.len() == 1);
            lemma_only_piece(text.drop_last(), separator);
            assert(first =~= text);
        }
    }
}

/// A single piece is the whole text.
proof fn lemma_only_piece(text: Seq<char>, separator: char)
    requires
        text::split_pieces(text, separator).len() == 1,
    ensures
        text::split_pieces(text, separator)[0] == text,
    decreases text.len(),
{
    if text.len() > 0 {
        text::split_pieces_not_empty(text.drop_last(), separator);
        lemma_only_piece(text.drop_last(), separator);
        assert(text =~= text.drop_last().push(text.last()));
    }
}

/// A requirement that was moved to a version stays where it is when it is moved
/// to that version again.
pub proof fn moved_requirement_stays(requirement: Seq<char>, version: Seq<char>)
    requires
        version.len() > 0,
        is_digit(version[0]),
    ensures
        retargeted(retargeted(requirement, version), version) == retargeted(requirement, version),
        !needs_rewrite(retargeted(requirement, version), version),
{
    let at = prefix_length(requirement);
    let moved = retargeted(requirement, version);
    lemma_prefix_has_no_digit(requirement);
    assert forall|k: int| 0 <= k < at implies !is_digit(#[trigger] moved[k]) by {
        assert(moved[k] == requirement[k]);
    }
    assert(moved[at] == version[0]);
    lemma_first_digit(moved, at);
    assert(moved.take(at) =~= requirement.take(at));
}

/// No digit stands in the range prefix.
proof fn lemma_prefix_has_no_digit(requirement: Seq<char>)
    ensures
        0 <= prefix_length(requirement) <= requirement.len(),
        0 <= first_digit(requirement) <= requirement.len(),
        forall|k: int|
            0 <= k < first_digit(requirement) ==> !is_digit(#[trigger] requirement[k]),
    decreases requirement.len(),
{
    if requirement.len() > 0 && !is_digit(requirement[0]) {
        let rest = requirement.drop_first();
        lemma_prefix_has_no_digit(rest);
        assert forall|k: int| 0 <= k < first_digit(requirement) implies !is_digit(
            #[trigger] requirement[k],
        ) by {
            if k > 0 {
                assert(rest[k - 1] == requirement[k]);
            }
        }
    }
}


/// Digits are neither dots nor plus signs.
proof fn lemma_number_digits(text: Seq<char>)
    requires
        number(text) is Some,
    ensures
        text.len() > 0,
        forall|i: int| 0 <= i < text.len() ==> is_digit(#[trigger] text[i]),
        forall|i: int| 0 <= i < text.len() ==> #[trigger] text[i] != '.',
        forall|i: int| 0 <= i < text.len() ==> #[trigger] text[i] != '+',
{
}

/// Three numbers between dots, and whatever is behind them from a `+` on, write
/// a version.
proof fn lemma_written_version(p: Seq<char>, q: Seq<char>, r: Seq<char>, build: Seq<char>)
    requires
        number(p) is Some,
        number(q) is Some,
        number(r) is Some,
        build.len() == 0 || build[0] == '+',
    ensures
        version_of(p + "."@ + q + "."@ + r + build) == Some(
            VersionView {
                major: number(p)->0 as nat,
                minor: number(q)->0 as nat,
                patch: number(r)->0 as nat,
                build,
            },
        ),
{
    reveal_strlit(".");
    lemma_number_digits(p);
    lemma_number_digits(q);
    lemma_number_digits(r);
    let core = (p.push('.') + q).push('.') + r;
    let whole = p + "."@ + q + "."@ + r + build;
    assert("."@ =~= seq!['.']);
    assert(whole =~= core + build);
    let at = core.len() as int;
    assert forall|k: int| 0 <= k < at implies whole[k] != '+' by {
        assert(whole[k] == core[k]);
        if k < p.len() {
            assert(core[k] == p[k]);
        } else if k > p.len() && k < p.len() + 1 + q.len() {
            assert(core[k] == q[k - p.len() - 1]);
        } else if k > p.len() + 1 + q.len() {
            assert(core[k] == r[k - p.len() - q.len() - 2]);
        }
    }
    if build.len() > 0 {
        assert(whole[at] == build[0]);
    }
    lemma_first_of(whole, '+', at);
    assert(whole.take(at) =~= core);
    assert(whole.skip(at) =~= build);
    lemma_split_append(Seq::empty(), p, '.');
    lemma_split_append(p, q, '.');
    lemma_split_append(p.push('.') + q, r, '.');
    assert(text::split_pieces(core, '.') =~= seq![p, q, r]);
}

/// The numbers that one to three numbers between dots write.
proof fn lemma_written_numbers(x: Seq<char>, y: Seq<char>, z: Seq<char>)
    requires
        number(x) is Some,
        number(y) is Some,
        number(z) is Some,
    ensures
        requirement_numbers(x) == Some(seq![number(x)->0 as nat]),
        requirement_numbers(x + "."@ + y) == Some(
            seq![number(x)->0 as nat, number(y)->0 as nat],
        ),
        requirement_numbers(x + "."@ + y + "."@ + z) == Some(
            seq![number(x)->0 as nat, number(y)->0 as nat, number(z)->0 as nat],
        ),
{
    reveal_strlit(".");
    lemma_number_digits(x);
    lemma_number_digits(y);
    lemma_number_digits(z);
    assert("."@ =~= seq!['.']);
    assert(x + "."@ + y =~= x.push('.') + y);
    assert(x + "."@ + y + "."@ + z =~= (x.push('.') + y).push('.') + z);
    lemma_split_append(Seq::empty(), x, '.');
    lemma_split_append(x, y, '.');
    lemma_split_append(x.push('.') + y, z, '.');
    assert(text::split_pieces(x + "."@ + y, '.') =~= seq![x, y]);
    assert(text::split_pieces(x + "."@ + y + "."@ + z, '.') =~= seq![x, y, z]);
    assert(requirement_numbers(x)->0 =~= seq![number(x)->0 as nat]);
    assert(requirement_numbers(x + "."@ + y)->0 =~= seq![
        number(x)->0 as nat,
        number(y)->0 as nat,
    ]);
    assert(requirement_numbers(x + "."@ + y + "."@ + z)->0 =~= seq![
        number(x)->0 as nat,
        number(y)->0 as nat,
        number(z)->0 as nat,
    ]);
}

/// What stands before the first digit is the range prefix.
pub proof fn lemma_written_prefix(prefix: Seq<char>, tail: Seq<char>)
    requires
        forall|i: int| 0 <= i < prefix.len() ==> !is_digit(#[trigger] prefix[i]),
        tail.len() > 0,
        is_digit(tail[0]),
    ensures
        prefix_length(prefix + tail) == prefix.len(),
        (prefix + tail).take(prefix.len() as int) == prefix,
        (prefix + tail).skip(prefix.len() as int) == tail,
{
    let whole = prefix + tail;
    assert forall|k: int| 0 <= k < prefix.len() implies !is_digit(#[trigger] whole[k]) by {
        assert(whole[k] == prefix[k]);
    }
    assert(whole[prefix.len() as int] == tail[0]);
    lemma_first_digit(whole, prefix.len() as int);
    assert(whole.take(prefix.len() as int) =~= prefix);
    assert(whole.skip(prefix.len() as int) =~= tail);
}

/// The prefixes that are understood, written out.
proof fn lemma_prefix_texts()
    ensures
        ""@ == Seq::<char>::empty(),
        "^"@ == seq!['^'],
        "~"@ == seq!['~'],
        "="@ == seq!['='],
{
    reveal_strlit("");
    reveal_strlit("^");
    reveal_strlit("~");
    reveal_strlit("=");
    assert(""@ =~= Seq::empty());
    assert("^"@ =~= seq!['^']);
    assert("~"@ =~= seq!['~']);
    assert("="@ =~= seq!['=']);
}

/// The three forms of a requirement with the prefix.
proof fn lemma_written_requirement(
    prefix: Seq<char>,
    x: Seq<char>,
    y: Seq<char>,
    z: Seq<char>,
)
    requires
        number(x) is Some,
        number(y) is Some,
        number(z) is Some,
        forall|i: int| 0 <= i < prefix.len() ==> !is_digit(#[trigger] prefix[i]),
    ensures
        forall|tail: Seq<char>|
            #![trigger prefix + tail]
            tail == x || tail == x + "."@ + y || tail == x + "."@ + y + "."@ + z ==> prefix_length(
                prefix + tail,
            ) == prefix.len() && (prefix + tail).take(prefix.len() as int) == prefix && (prefix
                + tail).skip(prefix.len() as int) == tail,
{
    lemma_number_digits(x);
    assert forall|tail: Seq<char>|
        #![trigger prefix + tail]
        tail == x || tail == x + "."@ + y || tail == x + "."@ + y + "."@ + z implies prefix_length(
        prefix + tail,
    ) == prefix.len() && (prefix + tail).take(prefix.len() as int) == prefix && (prefix
        + tail).skip(prefix.len() as int) == tail by {
        assert(tail[0] == x[0]);
        assert(is_digit(x[0]));
        lemma_written_prefix(prefix, tail);
    }
}

/// An exact requirement admits a version exactly where every number that it
/// writes is the one of the version: `=X.Y.Z` the version `X.Y.Z` alone, `=X.Y`
/// its patches, `=X` everything under the major number.
pub proof fn exact_requirement_admits_its_numbers(
    x: Seq<char>,
    y: Seq<char>,
    z: Seq<char>,
    p: Seq<char>,
    q: Seq<char>,
    r: Seq<char>,
    build: Seq<char>,
)
    requires
        number(x) is Some,
        number(y) is Some,
        number(z) is Some,
        number(p) is Some,
        number(q) is Some,
        number(r) is Some,
        build.len() == 0 || build[0] == '+',
    ensures
        ({
            let version = p + "."@ + q + "."@ + r + build;
            &&& admits("="@ + (x + "."@ + y + "."@ + z), version) <==> number(x) == number(p)
                && number(y) == number(q) && number(z) == number(r)
            &&& admits("="@ + (x + "."@ + y), version) <==> number(x) == number(p) && number(y)
                == number(q)
            &&& admits("="@ + x, version) <==> number(x) == number(p)
        }),
{
    lemma_prefix_texts();
    lemma_written_version(p, q, r, build);
    lemma_written_numbers(x, y, z);
    lemma_written_requirement("="@, x, y, z);
    let version = p + "."@ + q + "."@ + r + build;
    let v = version_of(version)->0;
    let (a, b, c) = (number(x)->0 as nat, number(y)->0 as nat, number(z)->0 as nat);
    assert(admits("="@ + (x + "."@ + y + "."@ + z), version) == exact_admits(seq![a, b, c], v));
    assert(admits("="@ + (x + "."@ + y), version) == exact_admits(seq![a, b], v));
    assert(admits("="@ + x, version) == exact_admits(seq![a], v));
}

/// A tilde requirement admits a version exactly where the major number, and the
/// minor number where it is written, are the ones of the version, and the patch
/// of the version is no smaller than the one that is written.
pub proof fn tilde_requirement_admits_later_patches(
    x: Seq<char>,
    y: Seq<char>,
    z: Seq<char>,
    p: Seq<char>,
    q: Seq<char>,
    r: Seq<char>,
    build: Seq<char>,
)
    requires
        number(x) is Some,
        number(y) is Some,
        number(z) is Some,
        number(p) is Some,
        number(q) is Some,
        number(r) is Some,
        build.len() == 0 || build[0] == '+',
    ensures
        ({
            let version = p + "."@ + q + "."@ + r + build;
            &&& admits("~"@ + (x + "."@ + y + "."@ + z), version) <==> number(x) == number(p)
                && number(y) == number(q) && number(z)->0 <= number(r)->0
            &&& admits("~"@ + (x + "."@ + y), version) <==> number(x) == number(p) && number(y)
                == number(q)
            &&& admits("~"@ + x, version) <==> number(x) == number(p)
        }),
{
    lemma_prefix_texts();
    lemma_written_version(p, q, r, build);
    lemma_written_numbers(x, y, z);
    lemma_written_requirement("~"@, x, y, z);
    let version = p + "."@ + q + "."@ + r + build;
    let v = version_of(version)->0;
    let (a, b, c) = (number(x)->0 as nat, number(y)->0 as nat, number(z)->0 as nat);
    assert(admits("~"@ + (x + "."@ + y + "."@ + z), version) == tilde_admits(seq![a, b, c], v));
    assert(admits("~"@ + (x + "."@ + y), version) == tilde_admits(seq![a, b], v));
    assert(admits("~"@ + x, version) == tilde_admits(seq![a], v));
}

/// A caret requirement, and one without a prefix, admits the versions from the
/// one that it writes on, below the next one that may break: below the next
/// major number where the major number is not zero, else below the next minor
/// number where that is not zero or is the last that is written, else below the
/// next patch.
pub proof fn caret_requirement_admits_up_to_the_next_breaking_version(
    prefix: Seq<char>,
    x: Seq<char>,
    y: Seq<char>,
    z: Seq<char>,
    p: Seq<char>,
    q: Seq<char>,
    r: Seq<char>,
    build: Seq<char>,
)
    requires
        prefix == ""@ || prefix == "^"@,
        number(x) is Some,
        number(y) is Some,
        number(z) is Some,
        number(p) is Some,
        number(q) is Some,
        number(r) is Some,
        build.len() == 0 || build[0] == '+',
    ensures
        ({
            let version = p + "."@ + q + "."@ + r + build;
            let (major, minor, patch) = (number(p)->0, number(q)->0, number(r)->0);
            let (from_major, from_minor, from_patch) = (number(x)->0, number(y)->0, number(z)->0);
            &&& admits(prefix + (x + "."@ + y + "."@ + z), version) <==> {
                &&& major > from_major || (major == from_major && (minor > from_minor || (minor
                    == from_minor && patch >= from_patch)))
                &&& if from_major > 0 {
                    major < from_major + 1
                } else if from_minor > 0 {
                    major == 0 && minor < from_minor + 1
                } else {
                    major == 0 && minor == 0 && patch < from_patch + 1
                }
            }
            &&& admits(prefix + (x + "."@ + y), version) <==> {
                &&& major > from_major || (major == from_major && minor >= from_minor)
                &&& if from_major > 0 {
                    major < from_major + 1
                } else {
                    major == 0 && minor < from_minor + 1
                }
            }
            &&& admits(prefix + x, version) <==> from_major <= major < from_major + 1
        }),
{
    lemma_prefix_texts();
    lemma_written_version(p, q, r, build);
    lemma_written_numbers(x, y, z);
    assert forall|i: int| 0 <= i < prefix.len() implies !is_digit(#[trigger] prefix[i]) by {}
    lemma_written_requirement(prefix, x, y, z);
    let version = p + "."@ + q + "."@ + r + build;
    let v = version_of(version)->0;
    let (a, b, c) = (number(x)->0 as nat, number(y)->0 as nat, number(z)->0 as nat);
    assert(admits(prefix + (x + "."@ + y + "."@ + z), version) == caret_admits(seq![a, b, c], v));
    assert(admits(prefix + (x + "."@ + y), version) == caret_admits(seq![a, b], v));
    assert(admits(prefix + x, version) == caret_admits(seq![a], v));
}

/// A requirement with any other prefix admits nothing: it is moved along with
/// every new version.
pub proof fn other_requirements_admit_nothing(
    prefix: Seq<char>,
    tail: Seq<char>,
    version: Seq<char>,
)
    requires
        forall|i: int| 0 <= i < prefix.len() ==> !is_digit(#[trigger] prefix[i]),
        tail.len() > 0,
        is_digit(tail[0]),
        prefix != ""@,
        prefix != "^"@,
        prefix != "~"@,
        prefix != "="@,
    ensures
        !admits(prefix + tail, version),
{
    lemma_written_prefix(prefix, tail);
}

/// A bump moves one number of a version by one: the major one and nothing is
/// left of the others, the minor one and nothing is left of the patch, or the
/// patch alone. Leading zeros go, and the build metadata stays.
pub proof fn bump_moves_one_number(
    p: Seq<char>,
    q: Seq<char>,
    r: Seq<char>,
    build: Seq<char>,
)
    requires
        number(p) is Some,
        number(q) is Some,
        number(r) is Some,
        build.len() == 0 || build[0] == '+',
    ensures
        ({
            let version = p + "."@ + q + "."@ + r + build;
            let (major, minor, patch) = (number(p)->0, number(q)->0, number(r)->0);
            &&& next_version_text(version, UpdateType::Major) == if major < u64::MAX {
                Some(text::decimal((major + 1) as nat) + "."@ + "0"@ + "."@ + "0"@ + build)
            } else {
                None
            }
            &&& next_version_text(version, UpdateType::Minor) == if minor < u64::MAX {
                Some(
                    text::decimal(major as nat) + "."@ + text::decimal((minor + 1) as nat) + "."@
                        + "0"@ + build,
                )
            } else {
                None
            }
            &&& next_version_text(version, UpdateType::Patch) == if patch < u64::MAX {
                Some(
                    text::decimal(major as nat) + "."@ + text::decimal(minor as nat) + "."@
                        + text::decimal((patch + 1) as nat) + build,
                )
            } else {
                None
            }
        }),
{
    lemma_written_version(p, q, r, build);
    reveal_strlit("0");
    assert("0"@ =~= seq!['0']);
    assert(text::decimal(0) =~= seq!['0']);
}

/// The decimal text of a number, and that text behind zeros, is read as the
/// number.
pub proof fn numbers_are_read_as_decimals(n: u64, zeros: nat)
    ensures
        number(Seq::new(zeros, |i: int| '0') + text::decimal(n as nat)) == Some(n),
{
    let lead = Seq::new(zeros, |i: int| '0');
    let digits = text::decimal(n as nat);
    lemma_decimal_number(n as nat);
    lemma_leading_zeros(zeros, digits);
    assert forall|i: int| 0 <= i < (lead + digits).len() implies is_digit(
        #[trigger] (lead + digits)[i],
    ) by {
        if i >= lead.len() {
            assert(is_digit(digits[i - lead.len()]));
        }
    }
}

proof fn lemma_leading_zeros(zeros: nat, digits: Seq<char>)
    ensures
        digits_value(Seq::new(zeros, |i: int| '0') + digits) == digits_value(digits),
    decreases digits.len(), zeros,
{
    let lead = Seq::new(zeros, |i: int| '0');
    let whole = lead + digits;
    if digits.len() > 0 {
        assert(whole.drop_last() =~= lead + digits.drop_last());
        lemma_leading_zeros(zeros, digits.drop_last());
    } else if zeros > 0 {
        let less = (zeros - 1) as nat;
        assert(whole.drop_last() =~= Seq::new(less, |i: int| '0') + digits);
        lemma_leading_zeros(less, digits);
    }
}

/// A requirement moves with a package exactly where it does not admit the new
/// version and would change; then what stands before its first digit stays, and
/// the new version stands behind it.
pub proof fn moved_requirement_is_prefix_and_version(
    prefix: Seq<char>,
    tail: Seq<char>,
    version: Seq<char>,
)
    requires
        forall|i: int| 0 <= i < prefix.len() ==> !is_digit(#[trigger] prefix[i]),
        tail.len() > 0,
        is_digit(tail[0]),
    ensures
        retargeted(prefix + tail, version) == prefix + version,
        needs_rewrite(prefix + tail, version) <==> !admits(prefix + tail, version) && tail
            != version,
{
    lemma_written_prefix(prefix, tail);
    if prefix + version == prefix + tail {
        assert((prefix + version).skip(prefix.len() as int) =~= version);
    }
}

/// A requirement without a digit is replaced as a whole.
pub proof fn requirement_without_digits_is_replaced(requirement: Seq<char>, version: Seq<char>)
    requires
        forall|i: int| 0 <= i < requirement.len() ==> !is_digit(#[trigger] requirement[i]),
    ensures
        retargeted(requirement, version) == version,
        !admits(requirement, version),
{
    lemma_first_digit(requirement, requirement.len() as int);
    assert(retargeted(requirement, version) =~= version);
    let tail = requirement.skip(0);
    assert(tail =~= requirement);
    text::split_pieces_not_empty(tail, '.');
    lemma_first_piece(tail, '.');
    let first = text::split_pieces(tail, '.')[0];
    if number(first) is Some {
        assert(is_digit(first[0]));
        assert(first[0] == tail[0]);
    }
}


/// The pieces of a text with the separator between them.
spec fn joined_pieces(pieces: Seq<Seq<char>>, separator: char) -> Seq<char>
    decreases pieces.len(),
{
    if pieces.len() == 0 {
        Seq::empty()
    } else if pieces.len() == 1 {
        pieces[0]
    } else {
        joined_pieces(pieces.drop_last(), separator).push(separator) + pieces.last()
    }
}

proof fn lemma_pieces_join(text: Seq<char>, separator: char)
    ensures
        joined_pieces(text::split_pieces(text, separator), separator) == text,
    decreases text.len(),
{
    let pieces = text::split_pieces(text, separator);
    if text.len() > 0 {
        let less = text.drop_last();
        let earlier = text::split_pieces(less, separator);
        lemma_pieces_join(less, separator);
        text::split_pieces_not_empty(less, separator);
        if text.last() == separator {
            assert(pieces.drop_last() =~= earlier);
            assert(joined_pieces(pieces, separator) =~= text);
        } else {
            assert(pieces.drop_last() =~= earlier.drop_last());
            assert(pieces.last() == earlier.last().push(text.last()));
            if earlier.len() == 1 {
                assert(joined_pieces(pieces, separator) =~= text);
            } else {
                assert(joined_pieces(pieces, separator) =~= joined_pieces(earlier, separator).push(
                    text.last(),
                ));
                assert(joined_pieces(pieces, separator) =~= text);
            }
        }
    } else {
        assert(joined_pieces(pieces, separator) =~= text);
    }
}

/// Only three numbers between dots, with or without build metadata, can be
/// bumped or admitted.
pub proof fn only_three_numbers_are_a_version(
    version: Seq<char>,
    update_type: UpdateType,
    requirement: Seq<char>,
)
    requires
        next_version_text(version, update_type) is Some || admits(requirement, version),
    ensures
        exists|p: Seq<char>, q: Seq<char>, r: Seq<char>, build: Seq<char>|
            version == #[trigger] (p + "."@ + q + "."@ + r + build) && number(p) is Some && number(
                q,
            ) is Some && number(r) is Some && (build.len() == 0 || build[0] == '+'),
{
    reveal_strlit(".");
    assert("."@ =~= seq!['.']);
    let at = first_of(version, '+');
    lemma_first_of_bounds(version, '+');
    let core = version.take(at);
    let build = version.skip(at);
    let pieces = text::split_pieces(core, '.');
    assert(pieces.len() == 3);
    lemma_pieces_join(core, '.');
    let (p, q, r) = (pieces[0], pieces[1], pieces[2]);
    reveal_with_fuel(joined_pieces, 4);
    assert(pieces.drop_last().drop_last() =~= seq![p]);
    assert(core =~= p + "."@ + q + "."@ + r);
    assert(version =~= p + "."@ + q + "."@ + r + build);
}

} // verus!
