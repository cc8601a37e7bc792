//! Paths that the configuration ignores, by gitignore patterns.

use crate::config::Config;
use crate::paths;
use crate::text::joined_text;
use crate::whitespace;
use ignore::gitignore::{Gitignore, GitignoreBuilder};
use vstd::prelude::*;
use vstd::string::*;

verus! {

/// `ignore::gitignore::GitignoreBuilder`: the patterns of a matcher to be.
#[verifier::external_type_specification]
#[verifier::external_body]
pub struct ExGitignoreBuilder(GitignoreBuilder);

/// `ignore::gitignore::Gitignore`: a matcher for gitignore patterns.
#[verifier::external_type_specification]
#[verifier::external_body]
pub struct ExGitignore(Gitignore);

/// The directory that a builder keeps, for which its lines count.
pub uninterp spec fn builder_root(builder: GitignoreBuilder) -> Seq<char>;

/// The patterns that a builder keeps, as they stand in their lines.
pub uninterp spec fn builder_lines(builder: GitignoreBuilder) -> Seq<Seq<char>>;

/// The files that a matcher ignores.
pub uninterp spec fn ignored_files(matcher: Gitignore) -> Set<Seq<char>>;

/// Why `GitignoreBuilder::add_line` refuses a line, if it does.
pub uninterp spec fn line_error(line: Seq<char>) -> Option<Seq<char>>;

/// Why `GitignoreBuilder::build` fails on the patterns, if it does.
pub uninterp spec fn build_error(patterns: Seq<Seq<char>>) -> Option<Seq<char>>;

/// The files that the patterns ignore in the directory, by gitignore rules:
/// those that `Gitignore::matched` says to ignore.
pub uninterp spec fn files_ignored_by(root: Seq<char>, patterns: Seq<Seq<char>>) -> Set<Seq<char>>;

/// The directory without a `./` at its start.
pub open spec fn kept_root(root: Seq<char>) -> Seq<char> {
    if "./"@.is_prefix_of(root) {
        root.skip("./"@.len() as int)
    } else {
        root
    }
}

/// The pattern in a line: the line without the whitespace at its end, unless a
/// backslash stands before a space there.
pub open spec fn kept_text(line: Seq<char>) -> Seq<char> {
    if "\\ "@.is_suffix_of(line) {
        line
    } else {
        line.take(whitespace::trimmed_length(line) as int)
    }
}

/// The line is a comment or blank.
pub open spec fn holds_no_pattern(line: Seq<char>) -> bool {
    "#"@.is_prefix_of(line) || kept_text(line).len() == 0
}

/// The patterns with the one in another line, where it holds one.
pub open spec fn with_line(patterns: Seq<Seq<char>>, line: Seq<char>) -> Seq<Seq<char>> {
    if holds_no_pattern(line) {
        patterns
    } else {
        patterns.push(kept_text(line))
    }
}

/// The patterns in the lines, in order.
pub open spec fn kept_lines(lines: Seq<Seq<char>>) -> Seq<Seq<char>>
    decreases lines.len(),
{
    if lines.len() == 0 {
        Seq::empty()
    } else {
        with_line(kept_lines(lines.drop_last()), lines.last())
    }
}

/// `GitignoreBuilder::new`: a builder for the directory, from which it takes a
/// leading `./`, without patterns. Paths are texts with slashes, as on Unix.
#[verifier::external_body]
fn new_builder(root: &str) -> (builder: GitignoreBuilder)
    ensures
        builder_root(builder) == kept_root(root@),
        builder_lines(builder) == Seq::<Seq<char>>::empty(),
{
    GitignoreBuilder::new(root)
}

/// `GitignoreBuilder::add_line`, without a file that the line comes from: adds
/// the pattern in the line, where it holds one, or leaves the patterns as they
/// were and says why. Which lines it refuses depends on the line alone, and it
/// takes comments and blank lines.
#[verifier::external_body]
fn add_line(builder: &mut GitignoreBuilder, line: &str) -> (result: Result<(), String>)
    ensures
        builder_root(*final(builder)) == builder_root(*old(builder)),
        match result {
            Ok(_) => line_error(line@) is None && builder_lines(*final(builder)) == with_line(
                builder_lines(*old(builder)),
                line@,
            ),
            Err(message) => line_error(line@) == Some(message@) && builder_lines(*final(builder))
                == builder_lines(*old(builder)) && !holds_no_pattern(line@),
        },
{
    builder.add_line(None, line).map(|_| ()).map_err(|error| error.to_string())
}

/// `GitignoreBuilder::build`: the matcher for the directory and the patterns of
/// the builder. Whether it fails depends on the patterns alone, and what the
/// matcher ignores on the directory and the patterns. Without patterns it does
/// not fail, and nothing is ignored.
#[verifier::external_body]
fn build_matcher(builder: &GitignoreBuilder) -> (result: Result<Gitignore, String>)
    ensures
        match result {
            Ok(matcher) => build_error(builder_lines(*builder)) is None && ignored_files(matcher)
                == files_ignored_by(builder_root(*builder), builder_lines(*builder)),
            Err(message) => build_error(builder_lines(*builder)) == Some(message@),
        },
        builder_lines(*builder).len() == 0 ==> result is Ok && ignored_files(result->Ok_0)
            == Set::<Seq<char>>::empty(),
{
    builder.build().map_err(|error| error.to_string())
}

/// `Gitignore::matched` of a path that is not a directory, and whether the match
/// says to ignore it. The answer depends on the matcher and the path alone.
#[verifier::external_body]
fn matches_file(matcher: &Gitignore, path: &str) -> (ignored: bool)
    ensures
        ignored == ignored_files(*matcher).contains(path@),
{
    matcher.matched(path, false).is_ignore()
}

/// Ignore patterns that cannot be used.
#[derive(Debug)]
pub enum IgnoreError {
    /// A pattern is malformed.
    Invalid { pattern: String, message: String },
    /// The patterns cannot be matched together.
    Unbuildable { message: String },
}

impl IgnoreError {
    /// What to tell the user.
    pub open spec fn text(self) -> Seq<char> {
        match self {
            IgnoreError::Invalid { pattern, message } => "Invalid ignore pattern in config: "@
                + pattern@ + ": "@ + message@,
            IgnoreError::Unbuildable { message } =>
                "Failed to build ignore matcher from config patterns: "@ + message@,
        }
    }

    /// What to tell the user.
    pub fn message(&self) -> (text: String)
        ensures
            text@ == self.text(),
    {
        match self {
            IgnoreError::Invalid { pattern, message } => {
                let mut text: String = joined_text(
                    "Invalid ignore pattern in config: ",
                    pattern.as_str(),
                );
                text.append(": ");
                text.append(message.as_str());
                text
            },
            IgnoreError::Unbuildable { message } => joined_text(
                "Failed to build ignore matcher from config patterns: ",
                message.as_str(),
            ),
        }
    }
}

/// The first pattern that is malformed.
pub open spec fn is_first_invalid_line(lines: Seq<Seq<char>>, i: int) -> bool {
    &&& 0 <= i < lines.len()
    &&& line_error(lines[i]) is Some
    &&& forall|k: int| 0 <= k < i ==> line_error(#[trigger] lines[k]) is None
}

/// No pattern is malformed.
pub open spec fn are_valid_lines(lines: Seq<Seq<char>>) -> bool {
    forall|k: int| 0 <= k < lines.len() ==> line_error(#[trigger] lines[k]) is None
}

/// The error says why the patterns cannot be used.
pub open spec fn is_ignore_fault(error: IgnoreError, lines: Seq<Seq<char>>) -> bool {
    match error {
        IgnoreError::Invalid { pattern, message } => exists|i: int| #[trigger]
            is_first_invalid_line(lines, i) && lines[i] == pattern@ && line_error(lines[i])
                == Some(message@),
        IgnoreError::Unbuildable { message } => lines.len() > 0 && are_valid_lines(lines)
            && build_error(kept_lines(lines)) == Some(message@),
    }
}

/// The patterns can be used.
pub open spec fn are_usable_lines(lines: Seq<Seq<char>>) -> bool {
    lines.len() == 0 || (are_valid_lines(lines) && build_error(kept_lines(lines)) is None)
}

/// A line with a pattern leaves a pattern.
proof fn lemma_kept_line(lines: Seq<Seq<char>>, i: int)
    requires
        0 <= i < lines.len(),
        !holds_no_pattern(lines[i]),
    ensures
        kept_lines(lines).len() > 0,
    decreases lines.len(),
{
    if i < lines.len() - 1 {
        lemma_kept_line(lines.drop_last(), i);
    }
}

/// The matcher for the ignore lines of the configuration, where there are any.
/// Comments and blank lines are no fault and ignore nothing.
pub fn build_config_gitignore(git_root_path: &str, config: &Config) -> (result: Result<
    Option<Gitignore>,
    IgnoreError,
>)
    ensures
        ({
            let lines = paths::views(config.ignore@);
            match result {
                Ok(matcher) => are_usable_lines(lines) && (matcher is Some <==> lines.len() > 0)
                    && match matcher {
                    Some(m) => ignored_files(m) == config_ignored(git_root_path@, *config),
                    None => true,
                },
                Err(error) => is_ignore_fault(error, lines) && kept_lines(lines).len() > 0,
            }
        }),
{
    if config.ignore.len() == 0 {
        return Ok(None);
    }
    let ghost lines = paths::views(config.ignore@);
    let mut builder: GitignoreBuilder = new_builder(git_root_path);
    let mut i: usize = 0;
    proof {
        assert(lines.take(0) =~= Seq::empty());
    }
    while i < config.ignore.len()
        invariant
            i <= config.ignore@.len(),
            lines == paths::views(config.ignore@),
            lines.len() == config.ignore@.len(),
            builder_root(builder) == kept_root(git_root_path@),
            builder_lines(builder) == kept_lines(lines.take(i as int)),
            forall|k: int| 0 <= k < i ==> line_error(#[trigger] lines[k]) is None,
        decreases config.ignore@.len() - i,
    {
        proof {
            assert(lines[i as int] == config.ignore@[i as int]@);
            assert(lines.take(i as int + 1).drop_last() =~= lines.take(i as int));
        }
        match add_line(&mut builder, config.ignore[i].as_str()) {
            Ok(_) => {},
            Err(message) => {
                proof {
                    assert(is_first_invalid_line(lines, i as int));
                    lemma_kept_line(lines, i as int);
                }
                return Err(IgnoreError::Invalid { pattern: config.ignore[i].clone(), message });
            },
        }
        i = i + 1;
    }
    proof {
        assert(lines.take(i as int) =~= lines);
    }
    match build_matcher(&builder) {
        Ok(matcher) => Ok(Some(matcher)),
        Err(message) => Err(IgnoreError::Unbuildable { message }),
    }
}

/// The files that a matcher ignores, where there is one.
pub open spec fn ignored_by(matcher: Option<&Gitignore>) -> Set<Seq<char>> {
    match matcher {
        Some(m) => ignored_files(*m),
        None => Set::empty(),
    }
}

/// The files that the configuration ignores in the repository at `root`.
pub open spec fn config_ignored(root: Seq<char>, config: Config) -> Set<Seq<char>> {
    let patterns = kept_lines(paths::views(config.ignore@));
    if patterns.len() == 0 {
        Set::empty()
    } else {
        files_ignored_by(kept_root(root), patterns)
    }
}

/// Whether the configuration ignores the path.
pub fn config_ignores_path(gitignore: Option<&Gitignore>, path: &str) -> (ignored: bool)
    ensures
        ignored == ignored_by(gitignore).contains(path@),
{
    match gitignore {
        Some(matcher) => matches_file(matcher, path),
        None => false,
    }
}

/// The patterns of a configuration are its lines, in their order, without those
/// that begin with `#` and those of white space alone. Each loses the white space
/// at its end, unless a backslash and a space end it.
pub proof fn comments_and_blank_lines_are_no_patterns(lines: Seq<Seq<char>>, line: Seq<char>)
    ensures
        kept_lines(Seq::empty()) == Seq::<Seq<char>>::empty(),
        line.len() > 0 && line[0] == '#' ==> kept_lines(lines.push(line)) == kept_lines(lines),
        (forall|k: int| 0 <= k < line.len() ==> whitespace::is_white_space(#[trigger] line[k]))
            ==> kept_lines(lines.push(line)) == kept_lines(lines),
        line.len() > 0 && line[0] != '#' && !whitespace::is_white_space(line.last()) ==> kept_lines(
            lines.push(line),
        ) == kept_lines(lines).push(line),
        line.len() > 2 && line[0] != '#' && line.last() == ' ' && line[line.len() - 2] == '\\'
            ==> kept_lines(lines.push(line)) == kept_lines(lines).push(line),
        line.len() > 1 && line[0] != '#' && !whitespace::is_white_space(line[line.len() - 2])
            && line[line.len() - 2] != '\\' && line.last() == ' ' ==> kept_lines(lines.push(line))
            == kept_lines(lines).push(line.drop_last()),
{
    reveal_strlit("#");
    reveal_strlit("\\ ");
    let more = lines.push(line);
    assert(more.drop_last() =~= lines);
    assert("#"@.is_prefix_of(line) == (line.len() > 0 && line[0] == '#')) by {
        if line.len() > 0 {
            assert(line.subrange(0, 1) =~= seq![line[0]]);
            assert("#"@ =~= seq!['#']);
            assert("#"@[0] == '#');
        }
    }
    assert("\\ "@.is_suffix_of(line) == (line.len() > 1 && line.last() == ' ' && line[line.len() - 2]
        == '\\')) by {
        if line.len() > 1 {
            let end = line.subrange(line.len() - 2, line.len() as int);
            assert("\\ "@ =~= seq!['\\', ' ']);
            assert(end =~= seq![line[line.len() - 2], line.last()]);
            assert(end[0] == line[line.len() - 2] && end[1] == line.last());
            assert("\\ "@[0] == '\\' && "\\ "@[1] == ' ');
        }
    }
    reveal_with_fuel(whitespace::trimmed_length, 3);
    assert(line.take(line.len() as int) =~= line);
    if line.len() > 0 {
        assert(line.take(line.len() - 1) =~= line.drop_last());
    }
    if forall|k: int| 0 <= k < line.len() ==> whitespace::is_white_space(#[trigger] line[k]) {
        whitespace::lemma_trimmed_length(line, 0);
        if line.len() > 1 {
            assert(whitespace::is_white_space(line[line.len() - 2]));
        }
    }
}

} // verus!
