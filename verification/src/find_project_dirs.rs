//! Discovering the projects of a repository, and which of them changed.

use crate::ancestors;
use crate::ancestors::{holds_member, MANIFEST_FILE};
use crate::config::Config;
use crate::finder;
use crate::finder::{FinderError, FinderView, ManifestRead, RustProjectFinder};
use crate::ignore_patterns;
use crate::ignore_patterns::{build_config_gitignore, config_ignores_path, IgnoreError};
use crate::path_map;
use crate::path_map::PathMap;
use crate::paths;
use crate::paths::components_of;
use crate::project::ProjectKind;
use crate::package::PackageView;
use crate::text;
use crate::text::{
    chars_of, ends_with_text, joined_text, joined_text3, same_text, split_text, text_of,
};
use crate::workspace::WorkspaceView;
use ignore::gitignore::Gitignore;
use vstd::prelude::*;
use vstd::string::*;

verus! {

/// The name of the file that a path ends in: its last component, unless that
/// is the root, `.` or `..`.
pub open spec fn file_name(parts: Seq<Seq<char>>) -> Option<Seq<char>> {
    if parts.len() > 0 && parts.last() != seq!['/'] && parts.last() != seq!['.'] && parts.last()
        != seq!['.', '.'] {
        Some(parts.last())
    } else {
        None
    }
}

/// The name of the file that a path ends in.
pub fn file_name_of(path: &str) -> (name: Option<String>)
    ensures
        match name {
            Some(n) => file_name(paths::components(path@)) == Some(n@),
            None => file_name(paths::components(path@)) is None,
        },
{
    let parts: Vec<String> = components_of(path);
    proof {
        reveal_strlit("/");
        reveal_strlit(".");
        reveal_strlit("..");
        assert("/"@ =~= seq!['/']);
        assert("."@ =~= seq!['.']);
        assert(".."@ =~= seq!['.', '.']);
        assert(paths::views(parts@).len() == parts@.len());
    }
    if parts.len() == 0 {
        return None;
    }
    let last: &String = &parts[parts.len() - 1];
    proof {
        assert(paths::views(parts@).last() == last@);
    }
    if same_text(last.as_str(), "/") || same_text(last.as_str(), ".") || same_text(
        last.as_str(),
        "..",
    ) {
        None
    } else {
        Some(last.clone())
    }
}

/// The position of the last dot, or -1 where there is none.
pub open spec fn last_dot(name: Seq<char>) -> int
    decreases name.len(),
{
    if name.len() == 0 {
        -1
    } else if name.last() == '.' {
        name.len() - 1
    } else {
        last_dot(name.drop_last())
    }
}

/// The extension of a file name: what stands behind its last dot, unless that
/// is its first character.
pub open spec fn extension(name: Seq<char>) -> Option<Seq<char>> {
    if last_dot(name) > 0 {
        Some(name.skip(last_dot(name) + 1))
    } else {
        None
    }
}

/// A character with ASCII capitals made small.
pub open spec fn small(c: char) -> char {
    if 'A' <= c <= 'Z' {
        ((c as int) + 32) as char
    } else {
        c
    }
}

/// Two texts differ at most in the case of ASCII letters.
pub open spec fn same_ignoring_case(left: Seq<char>, right: Seq<char>) -> bool {
    left.len() == right.len() && forall|i: int|
        0 <= i < left.len() ==> small(#[trigger] left[i]) == small(right[i])
}

fn small_char(c: char) -> (lower: char)
    ensures
        lower == small(c),
{
    if 'A' <= c && c <= 'Z' {
        let code: u8 = c as u8;
        (code + 32) as char
    } else {
        c
    }
}

proof fn lemma_last_dot(name: Seq<char>, at: int)
    requires
        -1 <= at < name.len(),
        at >= 0 ==> name[at] == '.',
        forall|k: int| at < k < name.len() ==> name[k] != '.',
    ensures
        last_dot(name) == at,
    decreases name.len(),
{
    if name.len() > 0 && at < name.len() - 1 {
        let less = name.drop_last();
        assert forall|k: int| at < k < less.len() implies less[k] != '.' by {
            assert(less[k] == name[k]);
        }
        lemma_last_dot(less, at);
    }
}

/// The path has the extension, in any case.
pub open spec fn has_extension(parts: Seq<Seq<char>>, wanted: Seq<char>) -> bool {
    match file_name(parts) {
        Some(name) => match extension(name) {
            Some(ext) => same_ignoring_case(ext, wanted),
            None => false,
        },
        None => false,
    }
}

/// Whether the path has the extension, in any case.
pub fn has_extension_ignore_ascii_case(path: &str, wanted: &str) -> (has: bool)
    ensures
        has == has_extension(paths::components(path@), wanted@),
{
    let name: String = match file_name_of(path) {
        Some(name) => name,
        None => {
            return false;
        },
    };
    let chars: Vec<char> = chars_of(name.as_str());
    let other: Vec<char> = chars_of(wanted);
    let mut at: usize = chars.len();
    while at > 0 && chars[at - 1] != '.'
        invariant
            at <= chars@.len(),
            chars@ == name@,
            forall|k: int| at <= k < chars@.len() ==> chars@[k] != '.',
        decreases at,
    {
        at = at - 1;
    }
    proof {
        lemma_last_dot(name@, at - 1);
    }
    if at <= 1 {
        return false;
    }
    let ghost ext = name@.skip(at as int);
    proof {
        assert(extension(name@) == Some(ext));
    }
    if chars.len() - at != other.len() {
        return false;
    }
    let mut i: usize = 0;
    while i < other.len()
        invariant
            i <= other@.len(),
            at + other.len() == chars.len(),
            chars@ == name@,
            other@ == wanted@,
            file_name(paths::components(path@)) == Some(name@),
            extension(name@) == Some(ext),
            ext == name@.skip(at as int),
            forall|k: int| 0 <= k < i ==> small(#[trigger] ext[k]) == small(other@[k]),
        decreases other@.len() - i,
    {
        proof {
            assert(ext[i as int] == chars@[at + i]);
        }
        if small_char(chars[at + i]) != small_char(other[i]) {
            return false;
        }
        i = i + 1;
    }
    true
}

/// An entry of a finder's list of files claims a file: it is its name, or it
/// is a dot and the file's extension in any case.
pub open spec fn claims(entry: Seq<char>, parts: Seq<Seq<char>>, name: Seq<char>) -> bool {
    entry == name || (entry.len() > 0 && entry[0] == '.' && has_extension(
        parts,
        entry.drop_first(),
    ))
}

/// Whether one of a finder's files claims a file.
pub fn project_files_can_visit_path(project_files: &[&str], path: &str, file_name: &str) -> (can:
    bool)
    ensures
        can == exists|i: int|
            0 <= i < project_files@.len() && claims(
                (#[trigger] project_files@[i])@,
                paths::components(path@),
                file_name@,
            ),
{
    let mut i: usize = 0;
    while i < project_files.len()
        invariant
            i <= project_files@.len(),
            forall|k: int|
                0 <= k < i ==> !claims(
                    (#[trigger] project_files@[k])@,
                    paths::components(path@),
                    file_name@,
                ),
        decreases project_files@.len() - i,
    {
        let entry: &str = project_files[i];
        if same_text(entry, file_name) {
            proof {
                assert(claims(project_files@[i as int]@, paths::components(path@), file_name@));
            }
            return true;
        }
        let chars: Vec<char> = chars_of(entry);
        if chars.len() > 0 && chars[0] == '.' {
            let wanted: String = text_of(&chars, 1, chars.len());
            proof {
                assert(wanted@ =~= entry@.drop_first());
            }
            if has_extension_ignore_ascii_case(path, wanted.as_str()) {
                proof {
                    assert(claims(project_files@[i as int]@, paths::components(path@), file_name@));
                }
                return true;
            }
        }
        i = i + 1;
    }
    false
}

/// The directory that holds the tool's own files.
pub const CHANGEPACKS_DIR: &'static str = ".changepacks";

/// A path with one of the tool's own directories in it.
pub open spec fn is_own_path(parts: Seq<Seq<char>>) -> bool {
    exists|i: int| 0 <= i < parts.len() && #[trigger] parts[i] == CHANGEPACKS_DIR@
}

/// Whether a path has one of the tool's own directories in it.
pub fn contains_changepacks_component(path: &str) -> (contains: bool)
    ensures
        contains == is_own_path(paths::components(path@)),
{
    let parts: Vec<String> = components_of(path);
    let ghost list = paths::components(path@);
    proof {
        assert(list.len() == parts@.len());
    }
    let mut i: usize = 0;
    while i < parts.len()
        invariant
            i <= parts@.len(),
            paths::views(parts@) == list,
            list == paths::components(path@),
            list.len() == parts@.len(),
            forall|k: int| 0 <= k < i ==> #[trigger] list[k] != CHANGEPACKS_DIR@,
        decreases parts@.len() - i,
    {
        proof {
            assert(list[i as int] == parts@[i as int]@);
        }
        if same_text(parts[i].as_str(), CHANGEPACKS_DIR) {
            return true;
        }
        i = i + 1;
    }
    false
}

/// A change of the path counts: it is not one of the tool's own files, and not
/// ignored.
pub open spec fn is_dispatched(ignored: Set<Seq<char>>, path: Seq<char>) -> bool {
    !is_own_path(paths::components(path)) && !ignored.contains(path)
}

/// Whether a change of the path counts.
pub fn should_dispatch_change(gitignore: Option<&Gitignore>, path: &str) -> (dispatch: bool)
    ensures
        dispatch == is_dispatched(ignore_patterns::ignored_by(gitignore), path@),
{
    !contains_changepacks_component(path) && !config_ignores_path(gitignore, path)
}

/// A path that could not be listed.
#[derive(Debug)]
pub struct PathListError {
    pub context: String,
    pub message: String,
}

impl PathListError {
    /// What to tell the user.
    pub open spec fn text(self) -> Seq<char> {
        self.context@ + ": "@ + self.message@
    }

    /// What to tell the user.
    pub fn message(&self) -> (text: String)
        ensures
            text@ == self.text(),
    {
        joined_text3(self.context.as_str(), ": ", self.message.as_str())
    }
}

/// The first entry that could not be listed.
pub open spec fn is_first_failure(entries: Seq<Result<String, String>>, i: int) -> bool {
    0 <= i < entries.len() && entries[i] is Err && forall|k: int|
        0 <= k < i ==> (#[trigger] entries[k]) is Ok
}

/// Every entry could be listed.
pub open spec fn all_listed(entries: Seq<Result<String, String>>) -> bool {
    forall|k: int| 0 <= k < entries.len() ==> (#[trigger] entries[k]) is Ok
}

/// The error is that of the first entry that could not be listed.
pub open spec fn is_list_fault(
    error: PathListError,
    entries: Seq<Result<String, String>>,
    context: Seq<char>,
) -> bool {
    error.context@ == context && exists|i: int| #[trigger]
        is_first_failure(entries, i) && entries[i]->Err_0@ == error.message@
}

/// The listed paths whose change counts, in order.
pub open spec fn dispatched(
    entries: Seq<Result<String, String>>,
    ignored: Set<Seq<char>>,
) -> Seq<Seq<char>>
    decreases entries.len(),
{
    if entries.len() == 0 {
        Seq::empty()
    } else {
        let earlier = dispatched(entries.drop_last(), ignored);
        match entries.last() {
            Ok(path) => if is_dispatched(ignored, path@) {
                earlier.push(path@)
            } else {
                earlier
            },
            Err(_) => earlier,
        }
    }
}

/// The listed paths whose change counts, unless one could not be listed.
pub fn collect_dispatchable_paths(
    entries: &Vec<Result<String, String>>,
    gitignore: Option<&Gitignore>,
    error_context: &str,
) -> (result: Result<Vec<String>, PathListError>)
    ensures
        match result {
            Ok(list) => all_listed(entries@) && paths::views(list@) == dispatched(
                entries@,
                ignore_patterns::ignored_by(gitignore),
            ),
            Err(error) => is_list_fault(error, entries@, error_context@),
        },
{
    let mut list: Vec<String> = Vec::new();
    let mut i: usize = 0;
    proof {
        assert(paths::views(list@) =~= Seq::empty());
    }
    while i < entries.len()
        invariant
            i <= entries@.len(),
            forall|k: int| 0 <= k < i ==> (#[trigger] entries@[k]) is Ok,
            paths::views(list@) == dispatched(
                entries@.take(i as int),
                ignore_patterns::ignored_by(gitignore),
            ),
        decreases entries@.len() - i,
    {
        proof {
            assert(entries@.take(i as int + 1).drop_last() =~= entries@.take(i as int));
        }
        match &entries[i] {
            Ok(path) => {
                if should_dispatch_change(gitignore, path.as_str()) {
                    let ghost earlier = list@;
                    list.push(path.clone());
                    proof {
                        assert(paths::views(list@) =~= paths::views(earlier).push(path@));
                    }
                }
            },
            Err(message) => {
                proof {
                    assert(is_first_failure(entries@, i as int));
                }
                return Err(
                    PathListError { context: error_context.to_string(), message: message.clone() },
                );
            },
        }
        i = i + 1;
    }
    proof {
        assert(entries@.take(i as int) =~= entries@);
    }
    Ok(list)
}

/// A path below a directory: itself where it is absolute.
pub open spec fn joined_path(dir: Seq<char>, path: Seq<char>) -> Seq<char> {
    if path.len() > 0 && path[0] == '/' {
        path
    } else if dir.len() == 0 || dir.last() == '/' {
        dir + path
    } else {
        dir + "/"@ + path
    }
}

/// A path below a directory.
pub fn join_path(dir: &str, path: &str) -> (joined: String)
    ensures
        joined@ == joined_path(dir@, path@),
{
    let dir_chars: Vec<char> = chars_of(dir);
    let path_chars: Vec<char> = chars_of(path);
    if path_chars.len() > 0 && path_chars[0] == '/' {
        path.to_string()
    } else if dir_chars.len() == 0 || dir_chars[dir_chars.len() - 1] == '/' {
        joined_text(dir, path)
    } else {
        joined_text3(dir, "/", path)
    }
}

/// Discovery visits the tracked file: it is a manifest that is not ignored.
pub open spec fn is_visited(ignored: Set<Seq<char>>, path: Seq<char>) -> bool {
    !ignored.contains(path) && match file_name(paths::components(path)) {
        Some(name) => claims(MANIFEST_FILE@, paths::components(path), name),
        None => false,
    }
}

/// Whether discovery visits the tracked file.
fn visits_path(project_files: &[&str], gitignore: Option<&Gitignore>, path: &str) -> (visits: bool)
    requires
        project_files@.len() == 1,
        project_files@[0]@ == MANIFEST_FILE@,
    ensures
        visits == is_visited(ignore_patterns::ignored_by(gitignore), path@),
{
    if config_ignores_path(gitignore, path) {
        return false;
    }
    match file_name_of(path) {
        Some(name) => project_files_can_visit_path(project_files, path, name.as_str()),
        None => false,
    }
}

/// What visiting the first tracked files came to: the finder, and the path of
/// the manifest that cannot be used, where there is one.
pub struct Walk {
    pub finder: FinderView,
    pub fault: Option<Seq<char>>,
}

/// Visiting the first `n` tracked files, up to the first fault.
pub open spec fn walk(
    finder: FinderView,
    root: Seq<char>,
    index: Seq<Seq<char>>,
    ignored: Set<Seq<char>>,
    reads: Map<Seq<Seq<char>>, ManifestRead>,
    n: nat,
) -> Walk
    decreases n,
{
    if n == 0 {
        Walk { finder, fault: None }
    } else {
        let earlier = walk(finder, root, index, ignored, reads, (n - 1) as nat);
        let path = index[n - 1];
        if earlier.fault is Some || !is_visited(ignored, path) {
            earlier
        } else {
            walk_step(earlier.finder, joined_path(root, path), path, reads)
        }
    }
}

/// Visiting one more file.
pub open spec fn walk_step(
    finder: FinderView,
    path: Seq<char>,
    relative_path: Seq<char>,
    reads: Map<Seq<Seq<char>>, ManifestRead>,
) -> Walk {
    match finder::visit_fault(finder, path, relative_path, reads) {
        Some(at) => Walk { finder, fault: Some(at) },
        None => Walk {
            finder: finder::visited(finder, path, relative_path, reads),
            fault: None,
        },
    }
}

/// Once there is a fault, the walk stays where it is.
proof fn lemma_walk_stops(
    finder: FinderView,
    root: Seq<char>,
    index: Seq<Seq<char>>,
    ignored: Set<Seq<char>>,
    reads: Map<Seq<Seq<char>>, ManifestRead>,
    n: nat,
    m: nat,
)
    requires
        n <= m,
        walk(finder, root, index, ignored, reads, n).fault is Some,
    ensures
        walk(finder, root, index, ignored, reads, m) == walk(
            finder,
            root,
            index,
            ignored,
            reads,
            n,
        ),
    decreases m,
{
    if n < m {
        lemma_walk_stops(finder, root, index, ignored, reads, n, (m - 1) as nat);
    }
}

/// The files among the first `n` that a walk visits need no visit in the finder.
pub open spec fn are_passed_over(
    finder: FinderView,
    root: Seq<char>,
    index: Seq<Seq<char>>,
    ignored: Set<Seq<char>>,
    n: nat,
) -> bool {
    forall|k: int|
        0 <= k < n && is_visited(ignored, #[trigger] index[k]) ==> finder::is_passed_over(
            finder,
            paths::components(joined_path(root, index[k])),
        )
}

/// A walk that comes to no fault leaves nothing of what it saw to be visited,
/// and comes to the same with more reads.
proof fn lemma_walk_done(
    finder: FinderView,
    root: Seq<char>,
    index: Seq<Seq<char>>,
    ignored: Set<Seq<char>>,
    reads: Map<Seq<Seq<char>>, ManifestRead>,
    more: Map<Seq<Seq<char>>, ManifestRead>,
    n: nat,
)
    requires
        finder::extends(more, reads),
        walk(finder, root, index, ignored, reads, n).fault is None,
    ensures
        walk(finder, root, index, ignored, more, n) == walk(
            finder,
            root,
            index,
            ignored,
            reads,
            n,
        ),
        are_passed_over(
            walk(finder, root, index, ignored, reads, n).finder,
            root,
            index,
            ignored,
            n,
        ),
    decreases n,
{
    if n > 0 {
        lemma_walk_done(finder, root, index, ignored, reads, more, (n - 1) as nat);
        let earlier = walk(finder, root, index, ignored, reads, (n - 1) as nat).finder;
        let path = index[n - 1];
        if is_visited(ignored, path) {
            let absolute = joined_path(root, path);
            finder::more_reads_keep_a_visit(earlier, absolute, path, reads, more);
            assert forall|k: int|
                0 <= k < n && is_visited(ignored, #[trigger] index[k]) implies finder::is_passed_over(
                finder::visited(earlier, absolute, path, reads),
                paths::components(joined_path(root, index[k])),
            ) by {
                finder::visited_manifests_are_passed_over(
                    earlier,
                    absolute,
                    path,
                    reads,
                    paths::components(joined_path(root, index[k])),
                );
            }
        }
    }
}

/// A walk over files that need no visit changes nothing.
proof fn lemma_walk_again(
    finder: FinderView,
    root: Seq<char>,
    index: Seq<Seq<char>>,
    ignored: Set<Seq<char>>,
    reads: Map<Seq<Seq<char>>, ManifestRead>,
    n: nat,
    m: nat,
)
    requires
        m <= n,
        are_passed_over(finder, root, index, ignored, n),
    ensures
        walk(finder, root, index, ignored, reads, m) == (Walk { finder, fault: None }),
    decreases m,
{
    if m > 0 {
        lemma_walk_again(finder, root, index, ignored, reads, n, (m - 1) as nat);
        assert(is_visited(ignored, index[m - 1]) ==> finder::is_passed_over(
            finder,
            paths::components(joined_path(root, index[m - 1])),
        ));
    }
}

/// Where two walks come to the same after `n` files, they do after more.
proof fn lemma_walks_agree(
    first: FinderView,
    second: FinderView,
    root: Seq<char>,
    index: Seq<Seq<char>>,
    ignored: Set<Seq<char>>,
    reads: Map<Seq<Seq<char>>, ManifestRead>,
    n: nat,
    m: nat,
)
    requires
        n <= m,
        walk(first, root, index, ignored, reads, n) == walk(
            second,
            root,
            index,
            ignored,
            reads,
            n,
        ),
    ensures
        walk(first, root, index, ignored, reads, m) == walk(
            second,
            root,
            index,
            ignored,
            reads,
            m,
        ),
    decreases m,
{
    if n < m {
        lemma_walks_agree(first, second, root, index, ignored, reads, n, (m - 1) as nat);
    }
}

/// How many files a walk sees before a fault.
spec fn files_seen(
    finder: FinderView,
    root: Seq<char>,
    index: Seq<Seq<char>>,
    ignored: Set<Seq<char>>,
    reads: Map<Seq<Seq<char>>, ManifestRead>,
    n: nat,
) -> nat
    decreases n,
{
    if n > 0 && walk(finder, root, index, ignored, reads, n).fault is Some {
        files_seen(finder, root, index, ignored, reads, (n - 1) as nat)
    } else {
        n
    }
}

proof fn lemma_files_seen(
    finder: FinderView,
    root: Seq<char>,
    index: Seq<Seq<char>>,
    ignored: Set<Seq<char>>,
    reads: Map<Seq<Seq<char>>, ManifestRead>,
    n: nat,
)
    ensures
        ({
            let seen = files_seen(finder, root, index, ignored, reads, n);
            &&& seen <= n
            &&& walk(finder, root, index, ignored, reads, seen) == (Walk {
                finder: walk(finder, root, index, ignored, reads, n).finder,
                fault: None,
            })
        }),
    decreases n,
{
    if n > 0 && walk(finder, root, index, ignored, reads, n).fault is Some {
        lemma_files_seen(finder, root, index, ignored, reads, (n - 1) as nat);
    }
}

/// A walk that was stopped by a fault can be taken up again with the finder it
/// left: with more reads it comes to what a walk from the start comes to.
pub proof fn a_walk_can_be_resumed(
    finder: FinderView,
    root: Seq<char>,
    index: Seq<Seq<char>>,
    ignored: Set<Seq<char>>,
    reads: Map<Seq<Seq<char>>, ManifestRead>,
    more: Map<Seq<Seq<char>>, ManifestRead>,
)
    requires
        finder::extends(more, reads),
    ensures
        walk(
            walk(finder, root, index, ignored, reads, index.len()).finder,
            root,
            index,
            ignored,
            more,
            index.len(),
        ) == walk(finder, root, index, ignored, more, index.len()),
{
    let left = walk(finder, root, index, ignored, reads, index.len()).finder;
    let seen = files_seen(finder, root, index, ignored, reads, index.len());
    lemma_files_seen(finder, root, index, ignored, reads, index.len());
    lemma_walk_done(finder, root, index, ignored, reads, more, seen);
    lemma_walk_again(left, root, index, ignored, more, seen, seen);
    lemma_walks_agree(left, finder, root, index, ignored, more, seen, index.len());
}

/// The name of a repository by the path of its origin: the last piece, without
/// `.git`.
pub open spec fn origin_name(path: Seq<char>) -> Option<Seq<char>> {
    let last = text::split_pieces(path, '/').last();
    let name = if ".git"@.is_suffix_of(last) {
        last.take(last.len() - ".git"@.len())
    } else {
        last
    };
    if name.len() == 0 {
        None
    } else {
        Some(name)
    }
}

/// The name of a repository: by its origin, or else that of its directory.
pub open spec fn repository_name(origin: Option<Seq<char>>, root: Seq<char>) -> Option<Seq<char>> {
    match origin {
        Some(path) => match origin_name(path) {
            Some(name) => Some(name),
            None => file_name(paths::components(root)),
        },
        None => file_name(paths::components(root)),
    }
}

/// The name of a repository by the path of its origin.
fn origin_repository_name(path: &str) -> (name: Option<String>)
    ensures
        match name {
            Some(n) => origin_name(path@) == Some(n@),
            None => origin_name(path@) is None,
        },
{
    let pieces: Vec<String> = split_text(path, '/');
    proof {
        text::split_pieces_not_empty(path@, '/');
        assert(pieces@.map_values(|p: String| p@).last() == pieces@.last()@);
        reveal_strlit(".git");
    }
    let last: &String = &pieces[pieces.len() - 1];
    let chars: Vec<char> = chars_of(last.as_str());
    let end: usize = if ends_with_text(last.as_str(), ".git") {
        chars.len() - 4
    } else {
        chars.len()
    };
    proof {
        assert(last@.subrange(0, last@.len() as int) =~= last@);
        assert(end < last@.len() ==> last@.subrange(0, end as int) =~= last@.take(end as int));
    }
    if end == 0 {
        None
    } else {
        Some(text_of(&chars, 0, end))
    }
}

/// The name of a repository, from the path of its origin and its directory.
pub fn repository_name_of(origin_path: Option<&str>, git_root_path: &str) -> (name: Option<String>)
    ensures
        ({
            let origin = match origin_path {
                Some(path) => Some(path@),
                None => None,
            };
            match name {
                Some(n) => repository_name(origin, git_root_path@) == Some(n@),
                None => repository_name(origin, git_root_path@) is None,
            }
        }),
{
    match origin_path {
        Some(path) => match origin_repository_name(path) {
            Some(name) => Some(name),
            None => file_name_of(git_root_path),
        },
        None => file_name_of(git_root_path),
    }
}

/// A project with the name, unless it has one.
pub open spec fn named(project: ProjectKind, name: Option<Seq<char>>) -> ProjectKind {
    match project {
        ProjectKind::Workspace(workspace) => if workspace.name is None && name is Some {
            ProjectKind::Workspace(WorkspaceView { name, ..workspace })
        } else {
            project
        },
        ProjectKind::Package(package) => if package.name is None && name is Some {
            ProjectKind::Package(PackageView { name, ..package })
        } else {
            project
        },
    }
}

/// The finder with the name for every project that has none.
pub open spec fn with_names(finder: FinderView, name: Option<Seq<char>>) -> FinderView {
    FinderView {
        projects: finder.projects.map_values(|project: ProjectKind| named(project, name)),
        ..finder
    }
}

/// Where a project is.
pub open spec fn place_of(project: ProjectKind) -> Seq<Seq<char>> {
    match project {
        ProjectKind::Workspace(workspace) => paths::components(workspace.path),
        ProjectKind::Package(package) => paths::components(package.path),
    }
}

/// One of the files lies in the directory of the manifest.
pub open spec fn is_touched(
    manifest: Seq<Seq<char>>,
    files: Set<Seq<Seq<char>>>,
) -> bool {
    exists|file: Seq<Seq<char>>| #[trigger]
        files.contains(file) && ancestors::is_root_of(manifest, file)
}

/// A project that is changed where one of the files lies in its directory.
pub open spec fn marked(project: ProjectKind, files: Set<Seq<Seq<char>>>) -> ProjectKind {
    if is_touched(place_of(project), files) {
        match project {
            ProjectKind::Workspace(workspace) => ProjectKind::Workspace(
                WorkspaceView { is_changed: true, ..workspace },
            ),
            ProjectKind::Package(package) => ProjectKind::Package(
                PackageView { is_changed: true, ..package },
            ),
        }
    } else {
        project
    }
}

/// The finder with the projects changed that the files touch.
pub open spec fn with_marks(finder: FinderView, files: Set<Seq<Seq<char>>>) -> FinderView {
    FinderView {
        projects: finder.projects.map_values(|project: ProjectKind| marked(project, files)),
        ..finder
    }
}

/// Replacing projects one for one is what it is in the view.
proof fn lemma_replaced(
    before: RustProjectFinder,
    after: RustProjectFinder,
    change: spec_fn(ProjectKind) -> ProjectKind,
)
    requires
        before.well_formed(),
        after.workspace_package_versions == before.workspace_package_versions,
        after.workspace_roots == before.workspace_roots,
        after.non_workspace_manifest_candidates == before.non_workspace_manifest_candidates,
        after.inherited_workspace_members == before.inherited_workspace_members,
        after.pending_workspace_packages == before.pending_workspace_packages,
        after.projects.entries@.len() == before.projects.entries@.len(),
        forall|i: int|
            0 <= i < before.projects.entries@.len() ==> {
                &&& (#[trigger] after.projects.entries@[i]).path == before.projects.entries@[i].path
                &&& after.projects.entries@[i].value.well_formed()
                &&& after.projects.entries@[i].value.kind() == change(
                    before.projects.entries@[i].value.kind(),
                )
            },
    ensures
        after.well_formed(),
        after@ == (FinderView { projects: before@.projects.map_values(change), ..before@ }),
{
    path_map::same_paths_in_view(before.projects, after.projects);
    assert forall|at: Seq<Seq<char>>| #[trigger] after.projects@.contains_key(at) implies {
        &&& after.projects@[at].well_formed()
        &&& after.projects@[at].kind() == change(before.projects@[at].kind())
    } by {
        let i = after.projects.view_has_entry(at);
        before.projects.entry_in_view(i);
    }
    assert(after@.projects =~= before@.projects.map_values(change));
}

/// Gives the name to every project that has none.
fn name_projects(finder: &mut RustProjectFinder, name: Option<&str>)
    requires
        old(finder).well_formed(),
    ensures
        final(finder).well_formed(),
        final(finder)@ == with_names(
            old(finder)@,
            match name {
                Some(n) => Some(n@),
                None => None,
            },
        ),
{
    let ghost before = *finder;
    let ghost given = match name {
        Some(n) => Some(n@),
        None => None,
    };
    proof {
        assert forall|i: int| 0 <= i < before.projects.entries@.len() implies (
        #[trigger] before.projects.entries@[i]).value.well_formed() by {
            before.projects.entry_in_view(i);
        }
    }
    let mut i: usize = 0;
    while i < finder.projects.entries.len()
        invariant
            i <= finder.projects.entries@.len(),
            given == (match name {
                Some(n) => Some(n@),
                None => None,
            }),
            finder.workspace_package_versions == before.workspace_package_versions,
            finder.workspace_roots == before.workspace_roots,
            finder.non_workspace_manifest_candidates == before.non_workspace_manifest_candidates,
            finder.inherited_workspace_members == before.inherited_workspace_members,
            finder.pending_workspace_packages == before.pending_workspace_packages,
            finder.projects.entries@.len() == before.projects.entries@.len(),
            forall|k: int|
                0 <= k < before.projects.entries@.len() ==> {
                    &&& (#[trigger] finder.projects.entries@[k]).path
                        == before.projects.entries@[k].path
                    &&& finder.projects.entries@[k].value.well_formed()
                    &&& finder.projects.entries@[k].value.kind() == (if k < i {
                        named(before.projects.entries@[k].value.kind(), given)
                    } else {
                        before.projects.entries@[k].value.kind()
                    })
                },
        decreases finder.projects.entries@.len() - i,
    {
        let ghost earlier = finder.projects.entries@;
        if finder.projects.entries[i].value.name().is_none() {
            match name {
                Some(n) => {
                    finder.projects.entries[i].value.set_name(n.to_string());
                },
                None => {},
            }
        }
        proof {
            assert forall|k: int| 0 <= k < earlier.len() && k != i implies
                #[trigger] finder.projects.entries@[k] == earlier[k] by {}
        }
        i = i + 1;
    }
    proof {
        lemma_replaced(before, *finder, |project: ProjectKind| named(project, given));
    }
}

/// Marks the projects as changed in whose directory one of the files lies.
pub fn check_changed_many(finder: &mut RustProjectFinder, files: &Vec<String>)
    requires
        old(finder).well_formed(),
    ensures
        final(finder).well_formed(),
        final(finder)@ == with_marks(old(finder)@, paths::place_set(files@)),
{
    let ghost before = *finder;
    let ghost places = paths::place_set(files@);
    proof {
        assert forall|i: int| 0 <= i < before.projects.entries@.len() implies (
        #[trigger] before.projects.entries@[i]).value.well_formed() by {
            before.projects.entry_in_view(i);
        }
    }
    let mut i: usize = 0;
    while i < finder.projects.entries.len()
        invariant
            i <= finder.projects.entries@.len(),
            places == paths::place_set(files@),
            finder.workspace_package_versions == before.workspace_package_versions,
            finder.workspace_roots == before.workspace_roots,
            finder.non_workspace_manifest_candidates == before.non_workspace_manifest_candidates,
            finder.inherited_workspace_members == before.inherited_workspace_members,
            finder.pending_workspace_packages == before.pending_workspace_packages,
            finder.projects.entries@.len() == before.projects.entries@.len(),
            forall|k: int|
                0 <= k < before.projects.entries@.len() ==> {
                    &&& (#[trigger] finder.projects.entries@[k]).path
                        == before.projects.entries@[k].path
                    &&& finder.projects.entries@[k].value.well_formed()
                    &&& finder.projects.entries@[k].value.kind() == (if k < i {
                        marked(before.projects.entries@[k].value.kind(), places)
                    } else {
                        before.projects.entries@[k].value.kind()
                    })
                },
        decreases finder.projects.entries@.len() - i,
    {
        let ghost earlier = finder.projects.entries@;
        if touches(finder.projects.entries[i].value.path(), files) {
            finder.projects.entries[i].value.set_changed(true);
        }
        proof {
            assert forall|k: int| 0 <= k < earlier.len() && k != i implies
                #[trigger] finder.projects.entries@[k] == earlier[k] by {}
        }
        i = i + 1;
    }
    proof {
        lemma_replaced(before, *finder, |project: ProjectKind| marked(project, places));
    }
}

/// Whether one of the files lies in the directory of the manifest.
fn touches(manifest_path: &str, files: &Vec<String>) -> (touched: bool)
    ensures
        touched == is_touched(paths::components(manifest_path@), paths::place_set(files@)),
{
    let mut i: usize = 0;
    while i < files.len()
        invariant
            i <= files@.len(),
            forall|k: int|
                0 <= k < i ==> !ancestors::is_root_of(
                    paths::components(manifest_path@),
                    paths::components((#[trigger] files@[k])@),
                ),
        decreases files@.len() - i,
    {
        if holds_member(manifest_path, files[i].as_str()) {
            proof {
                assert(paths::place_set(files@).contains(paths::components(files@[i as int]@)));
            }
            return true;
        }
        i = i + 1;
    }
    false
}

/// The path of the manifest that discovery needs and cannot use, where there is
/// one.
pub open spec fn discovery_fault(
    finder: FinderView,
    root: Seq<char>,
    index: Seq<Seq<char>>,
    ignored: Set<Seq<char>>,
    reads: Map<Seq<Seq<char>>, ManifestRead>,
) -> Option<Seq<char>> {
    let walked = walk(finder, root, index, ignored, reads, index.len());
    if walked.fault is Some {
        walked.fault
    } else {
        let pending = walked.finder.pending;
        finder::discovered(walked.finder.versions.dom(), pending, reads, pending.len()).fault
    }
}

/// The finder once discovery is done.
pub open spec fn discovery(
    finder: FinderView,
    root: Seq<char>,
    index: Seq<Seq<char>>,
    ignored: Set<Seq<char>>,
    reads: Map<Seq<Seq<char>>, ManifestRead>,
    origin: Option<Seq<char>>,
) -> FinderView {
    with_names(
        finder::finalized(
            walk(finder, root, index, ignored, reads, index.len()).finder,
            reads,
        ),
        repository_name(origin, root),
    )
}

/// Discovers the projects among the files of the git index. On a fault the
/// finder is as far as the walk over the index came.
pub fn discover_project_dirs_with_gitignore(
    finder: &mut RustProjectFinder,
    git_root_path: &str,
    index: &Vec<String>,
    gitignore: Option<&Gitignore>,
    reads: &PathMap<ManifestRead>,
    origin_path: Option<&str>,
) -> (result: Result<(), FinderError>)
    requires
        old(finder).well_formed(),
        reads.well_formed(),
    ensures
        ({
            let ignored = ignore_patterns::ignored_by(gitignore);
            let files = paths::views(index@);
            let origin = match origin_path {
                Some(path) => Some(path@),
                None => None,
            };
            let fault = discovery_fault(old(finder)@, git_root_path@, files, ignored, reads@);
            &&& final(finder).well_formed()
            &&& match result {
                Ok(_) => fault is None && final(finder)@ == discovery(
                    old(finder)@,
                    git_root_path@,
                    files,
                    ignored,
                    reads@,
                    origin,
                ),
                Err(error) => fault is Some && finder::is_fault(
                    error,
                    fault->0,
                    finder::found_at(reads@, paths::components(fault->0)),
                ) && final(finder)@ == walk(
                    old(finder)@,
                    git_root_path@,
                    files,
                    ignored,
                    reads@,
                    files.len(),
                ).finder,
            }
        }),
{
    let ghost before = finder@;
    let ghost ignored = ignore_patterns::ignored_by(gitignore);
    let ghost files = paths::views(index@);
    let project_files: [&str; 1] = finder.project_files();
    let mut i: usize = 0;
    while i < index.len()
        invariant
            i <= index@.len(),
            project_files@.len() == 1,
            project_files@[0]@ == MANIFEST_FILE@,
            ignored == ignore_patterns::ignored_by(gitignore),
            files == paths::views(index@),
            files.len() == index@.len(),
            before == old(finder)@,
            finder.well_formed(),
            reads.well_formed(),
            walk(before, git_root_path@, files, ignored, reads@, i as nat) == (Walk {
                finder: finder@,
                fault: None,
            }),
        decreases index@.len() - i,
    {
        let path: &str = index[i].as_str();
        proof {
            assert(files[i as int] == path@);
        }
        if visits_path(&project_files, gitignore, path) {
            let absolute: String = join_path(git_root_path, path);
            match finder.visit(absolute.as_str(), path, reads) {
                Ok(_) => {},
                Err(error) => {
                    proof {
                        lemma_walk_stops(
                            before,
                            git_root_path@,
                            files,
                            ignored,
                            reads@,
                            (i + 1) as nat,
                            files.len(),
                        );
                    }
                    return Err(error);
                },
            }
        }
        i = i + 1;
    }
    match finder.finalize(reads) {
        Ok(_) => {},
        Err(error) => {
            return Err(error);
        },
    }
    let name: Option<String> = repository_name_of(origin_path, git_root_path);
    match &name {
        Some(text) => name_projects(finder, Some(text.as_str())),
        None => name_projects(finder, None),
    }
    Ok(())
}

/// A change between two trees.
#[derive(Debug)]
pub struct TreeChange {
    /// Where it is, or why that cannot be said.
    pub path: Result<String, String>,
    /// Whether the new side is a directory.
    pub is_tree: bool,
    /// Whether the old side is a directory.
    pub source_is_tree: bool,
}

/// The changes of files: those with a file on either side.
pub open spec fn leaf_changes(changes: Seq<TreeChange>) -> Seq<Result<String, String>>
    decreases changes.len(),
{
    if changes.len() == 0 {
        Seq::empty()
    } else {
        let earlier = leaf_changes(changes.drop_last());
        if changes.last().is_tree && changes.last().source_is_tree {
            earlier
        } else {
            earlier.push(changes.last().path)
        }
    }
}

/// The changes of files.
pub fn leaf_changes_of(changes: &Vec<TreeChange>) -> (leaves: Vec<Result<String, String>>)
    ensures
        leaves@ == leaf_changes(changes@),
{
    let mut leaves: Vec<Result<String, String>> = Vec::new();
    let mut i: usize = 0;
    while i < changes.len()
        invariant
            i <= changes@.len(),
            leaves@ == leaf_changes(changes@.take(i as int)),
        decreases changes@.len() - i,
    {
        proof {
            assert(changes@.take(i as int + 1).drop_last() =~= changes@.take(i as int));
        }
        if !changes[i].is_tree || !changes[i].source_is_tree {
            match &changes[i].path {
                Ok(path) => leaves.push(Ok(path.clone())),
                Err(message) => leaves.push(Err(message.clone())),
            }
        }
        i = i + 1;
    }
    proof {
        assert(changes@.take(i as int) =~= changes@);
    }
    leaves
}

/// The places of the files at the paths, below the directory.
pub open spec fn places_below(root: Seq<char>, list: Seq<Seq<char>>) -> Set<Seq<Seq<char>>> {
    Set::new(
        |at: Seq<Seq<char>>|
            exists|i: int|
                0 <= i < list.len() && paths::components(joined_path(root, #[trigger] list[i]))
                    == at,
    )
}

/// Adds the files at the paths below the directory, each once.
pub fn add_unique_files(files: &mut Vec<String>, root: &str, list: &Vec<String>)
    requires
        paths::distinct_paths(old(files)@),
    ensures
        paths::distinct_paths(final(files)@),
        paths::place_set(final(files)@) == paths::place_set(old(files)@).union(
            places_below(root@, paths::views(list@)),
        ),
{
    let ghost before = paths::place_set(files@);
    let ghost all = paths::views(list@);
    let mut i: usize = 0;
    proof {
        assert(places_below(root@, all.take(0)) =~= Set::empty());
        assert(before.union(places_below(root@, all.take(0))) =~= before);
    }
    while i < list.len()
        invariant
            i <= list@.len(),
            all == paths::views(list@),
            all.len() == list@.len(),
            paths::distinct_paths(files@),
            paths::place_set(files@) == before.union(places_below(root@, all.take(i as int))),
        decreases list@.len() - i,
    {
        let ghost earlier = files@;
        let path: String = join_path(root, list[i].as_str());
        proof {
            let shorter = all.take(i as int);
            let longer = all.take(i as int + 1);
            assert(all[i as int] == list@[i as int]@);
            let at = paths::components(path@);
            assert forall|k: Seq<Seq<char>>| places_below(root@, longer).contains(k)
                == places_below(root@, shorter).insert(at).contains(k) by {
                if places_below(root@, longer).contains(k) {
                    let j = choose|j: int|
                        0 <= j < longer.len() && paths::components(
                            joined_path(root@, #[trigger] longer[j]),
                        ) == k;
                    if j < i {
                        assert(shorter[j] == longer[j]);
                    }
                }
                if places_below(root@, shorter).contains(k) {
                    let j = choose|j: int|
                        0 <= j < shorter.len() && paths::components(
                            joined_path(root@, #[trigger] shorter[j]),
                        ) == k;
                    assert(longer[j] == shorter[j]);
                }
                assert(longer[i as int] == list@[i as int]@);
            }
            assert(before.union(places_below(root@, longer)) =~= before.union(
                places_below(root@, shorter),
            ).insert(at));
            paths::place_set_push(earlier, path);
        }
        if !paths::holds_path(files, path.as_str()) {
            files.push(path);
        } else {
            proof {
                assert(paths::place_set(earlier).insert(paths::components(path@))
                    =~= paths::place_set(earlier));
            }
        }
        i = i + 1;
    }
    proof {
        assert(all.take(i as int) =~= all);
    }
}

/// The reference of the branch that changes are compared with.
pub open spec fn base_reference(branch: Seq<char>, remote: bool) -> Seq<char> {
    if remote {
        "refs/remotes/origin/"@ + branch
    } else {
        "refs/heads/"@ + branch
    }
}

/// The reference of the branch that changes are compared with.
pub fn base_reference_of(config: &Config, remote: bool) -> (reference: String)
    ensures
        reference@ == base_reference(config.base_branch@, remote),
{
    if remote {
        joined_text("refs/remotes/origin/", config.base_branch.as_str())
    } else {
        joined_text("refs/heads/", config.base_branch.as_str())
    }
}

/// What to tell the user where the branch to compare with is missing.
pub open spec fn missing_base_text(branch: Seq<char>, remote: bool) -> Seq<char> {
    if remote {
        "remote base branch 'origin/"@ + branch + "' not found. Did you fetch first?"@
    } else {
        "base branch '"@ + branch + "' not found in local refs"@
    }
}

/// What to tell the user where the branch to compare with is missing.
pub fn missing_base_message(config: &Config, remote: bool) -> (text: String)
    ensures
        text@ == missing_base_text(config.base_branch@, remote),
{
    if remote {
        joined_text3(
            "remote base branch 'origin/",
            config.base_branch.as_str(),
            "' not found. Did you fetch first?",
        )
    } else {
        joined_text3("base branch '", config.base_branch.as_str(), "' not found in local refs")
    }
}

/// Why projects cannot be found.
#[derive(Debug)]
pub enum DiscoveryError {
    /// The ignore patterns cannot be used.
    Ignore(IgnoreError),
    /// A manifest cannot be used.
    Manifest(FinderError),
    /// The repository cannot be compared with its base branch, or its worktree
    /// cannot be listed.
    Repository(String),
    /// A changed path cannot be listed.
    Paths(PathListError),
}

impl DiscoveryError {
    /// What to tell the user.
    pub open spec fn text(self) -> Seq<char> {
        match self {
            DiscoveryError::Ignore(error) => error.text(),
            DiscoveryError::Manifest(error) => error.text(),
            DiscoveryError::Repository(message) => message@,
            DiscoveryError::Paths(error) => error.text(),
        }
    }

    /// What to tell the user.
    pub fn message(&self) -> (text: String)
        ensures
            text@ == self.text(),
    {
        match self {
            DiscoveryError::Ignore(error) => error.message(),
            DiscoveryError::Manifest(error) => error.message(),
            DiscoveryError::Repository(message) => message.clone(),
            DiscoveryError::Paths(error) => error.message(),
        }
    }
}

/// The changed files that count, by their places.
pub open spec fn changed_places(
    root: Seq<char>,
    ignored: Set<Seq<char>>,
    changes: Seq<TreeChange>,
    status: Seq<Result<String, String>>,
) -> Set<Seq<Seq<char>>> {
    places_below(root, dispatched(status, ignored)).union(
        places_below(root, dispatched(leaf_changes(changes), ignored)),
    )
}

/// What the error of listing changed tree paths begins with.
pub const TREE_CONTEXT: &'static str = "Failed to enumerate changed tree paths";

/// What the error of listing worktree paths begins with.
pub const STATUS_CONTEXT: &'static str = "Failed to enumerate worktree status paths";

/// Finds the projects among the files of the git index, and marks those that
/// changed since the base branch or in the worktree. `changes` and `status` are
/// what the repository answered. On an error the projects found so far stay in
/// the finder, and none of them is marked.
pub fn find_project_dirs(
    finder: &mut RustProjectFinder,
    git_root_path: &str,
    config: &Config,
    index: &Vec<String>,
    reads: &PathMap<ManifestRead>,
    origin_path: Option<&str>,
    changes: &Result<Vec<TreeChange>, String>,
    status: &Result<Vec<Result<String, String>>, String>,
) -> (result: Result<(), DiscoveryError>)
    requires
        old(finder).well_formed(),
        reads.well_formed(),
    ensures
        ({
            let lines = paths::views(config.ignore@);
            let ignored = ignore_patterns::config_ignored(git_root_path@, *config);
            let files = paths::views(index@);
            let origin = match origin_path {
                Some(path) => Some(path@),
                None => None,
            };
            let walked = walk(
                old(finder)@,
                git_root_path@,
                files,
                ignored,
                reads@,
                files.len(),
            ).finder;
            let fault = discovery_fault(old(finder)@, git_root_path@, files, ignored, reads@);
            let found = discovery(
                old(finder)@,
                git_root_path@,
                files,
                ignored,
                reads@,
                origin,
            );
            let usable = ignore_patterns::are_usable_lines(lines) && fault is None;
            &&& final(finder).well_formed()
            &&& match result {
                Ok(_) => usable && changes is Ok && all_listed(leaf_changes(changes->Ok_0@))
                    && status is Ok && all_listed(status->Ok_0@) && final(finder)@ == with_marks(
                    found,
                    changed_places(git_root_path@, ignored, changes->Ok_0@, status->Ok_0@),
                ),
                Err(DiscoveryError::Ignore(error)) => *final(finder) == *old(finder)
                    && ignore_patterns::is_ignore_fault(error, lines),
                Err(DiscoveryError::Manifest(error)) => ignore_patterns::are_usable_lines(lines)
                    && fault is Some && finder::is_fault(
                    error,
                    fault->0,
                    finder::found_at(reads@, paths::components(fault->0)),
                ) && final(finder)@ == walked,
                Err(DiscoveryError::Repository(message)) => usable && final(finder)@ == found
                    && match changes {
                    Err(why) => message@ == why@,
                    Ok(list) => all_listed(leaf_changes(list@)) && status is Err && message@
                        == status->Err_0@,
                },
                Err(DiscoveryError::Paths(error)) => usable && final(finder)@ == found
                    && changes is Ok && (is_list_fault(
                    error,
                    leaf_changes(changes->Ok_0@),
                    TREE_CONTEXT@,
                ) || (all_listed(leaf_changes(changes->Ok_0@)) && status is Ok && is_list_fault(
                    error,
                    status->Ok_0@,
                    STATUS_CONTEXT@,
                ))),
            }
        }),
{
    let gitignore: Option<Gitignore> = match build_config_gitignore(git_root_path, config) {
        Ok(gitignore) => gitignore,
        Err(error) => {
            return Err(DiscoveryError::Ignore(error));
        },
    };
    let matcher: Option<&Gitignore> = match &gitignore {
        Some(gitignore) => Some(gitignore),
        None => None,
    };
    let ghost ignored = ignore_patterns::config_ignored(git_root_path@, *config);
    proof {
        assert(paths::views(config.ignore@).len() == config.ignore@.len());
        assert(ignore_patterns::ignored_by(matcher) == ignored);
    }
    match discover_project_dirs_with_gitignore(
        finder,
        git_root_path,
        index,
        matcher,
        reads,
        origin_path,
    ) {
        Ok(_) => {},
        Err(error) => {
            return Err(DiscoveryError::Manifest(error));
        },
    }
    let tree: &Vec<TreeChange> = match changes {
        Ok(tree) => tree,
        Err(message) => {
            return Err(DiscoveryError::Repository(message.clone()));
        },
    };
    let leaves: Vec<Result<String, String>> = leaf_changes_of(tree);
    let diff: Vec<String> = match collect_dispatchable_paths(&leaves, matcher, TREE_CONTEXT) {
        Ok(diff) => diff,
        Err(error) => {
            return Err(DiscoveryError::Paths(error));
        },
    };
    let entries: &Vec<Result<String, String>> = match status {
        Ok(entries) => entries,
        Err(message) => {
            return Err(DiscoveryError::Repository(message.clone()));
        },
    };
    let edited: Vec<String> = match collect_dispatchable_paths(entries, matcher, STATUS_CONTEXT) {
        Ok(edited) => edited,
        Err(error) => {
            return Err(DiscoveryError::Paths(error));
        },
    };
    let mut unique_files: Vec<String> = Vec::new();
    proof {
        assert(paths::place_set(unique_files@) =~= Set::empty());
    }
    add_unique_files(&mut unique_files, git_root_path, &edited);
    add_unique_files(&mut unique_files, git_root_path, &diff);
    proof {
        assert(paths::place_set(unique_files@) =~= changed_places(
            git_root_path@,
            ignored,
            tree@,
            entries@,
        ));
    }
    check_changed_many(finder, &unique_files);
    Ok(())
}

/// Marking changed projects can be repeated and done in any order: it only ever
/// depends on all the files together.
pub proof fn marks_add_up(
    finder: FinderView,
    first: Set<Seq<Seq<char>>>,
    second: Set<Seq<Seq<char>>>,
)
    ensures
        with_marks(with_marks(finder, first), second) == with_marks(finder, first.union(second)),
{
    let both = first.union(second);
    assert forall|project: ProjectKind| marked(#[trigger] marked(project, first), second)
        == marked(project, both) by {
        let at = place_of(project);
        if is_touched(at, first) {
            let file = choose|file: Seq<Seq<char>>| #[trigger]
                first.contains(file) && ancestors::is_root_of(at, file);
            assert(both.contains(file));
        }
        if is_touched(at, second) {
            let file = choose|file: Seq<Seq<char>>| #[trigger]
                second.contains(file) && ancestors::is_root_of(at, file);
            assert(both.contains(file));
        }
        if is_touched(at, both) {
            let file = choose|file: Seq<Seq<char>>| #[trigger]
                both.contains(file) && ancestors::is_root_of(at, file);
            assert(first.contains(file) || second.contains(file));
        }
    }
    assert(with_marks(with_marks(finder, first), second).projects =~= with_marks(
        finder,
        both,
    ).projects);
}

/// No file of the tool's own, and none that is ignored, is among the changes
/// that count.
pub proof fn own_and_ignored_files_do_not_count(
    entries: Seq<Result<String, String>>,
    ignored: Set<Seq<char>>,
    path: Seq<char>,
)
    requires
        dispatched(entries, ignored).contains(path),
    ensures
        !is_own_path(paths::components(path)),
        !ignored.contains(path),
    decreases entries.len(),
{
    if entries.len() > 0 {
        let list = dispatched(entries, ignored);
        let earlier = dispatched(entries.drop_last(), ignored);
        let i = list.index_of(path);
        if i < earlier.len() {
            assert(earlier[i] == path);
            own_and_ignored_files_do_not_count(entries.drop_last(), ignored, path);
        }
    }
}

/// Discovery leaves no project without a name where the repository has one.
pub proof fn discovered_projects_have_names(
    finder: FinderView,
    root: Seq<char>,
    index: Seq<Seq<char>>,
    ignored: Set<Seq<char>>,
    reads: Map<Seq<Seq<char>>, ManifestRead>,
    origin: Option<Seq<char>>,
    at: Seq<Seq<char>>,
)
    requires
        repository_name(origin, root) is Some,
        discovery(finder, root, index, ignored, reads, origin).projects.contains_key(at),
    ensures
        match discovery(finder, root, index, ignored, reads, origin).projects[at] {
            ProjectKind::Workspace(workspace) => workspace.name is Some,
            ProjectKind::Package(package) => package.name is Some,
        },
{
}

/// A path below a directory has the components of the directory and its own.
pub proof fn joined_paths_go_down(dir: Seq<char>, path: Seq<char>, step: Seq<char>)
    requires
        dir.len() > 0,
        step.len() > 0,
        step != seq!['.'],
        !step.contains('/'),
    ensures
        paths::components(joined_path(dir, step)) == paths::components(dir).push(step),
        path.len() > 0 ==> paths::components(joined_path(dir, path + seq!['/'] + step))
            == paths::components(joined_path(dir, path)).push(step),
        paths::components(joined_path(dir, seq!['/'] + path)) == paths::components(
            seq!['/'] + path,
        ),
        path.len() > 0 && path[0] != '/' ==> joined_path(Seq::empty(), path) == path,
{
    reveal_strlit("/");
    assert("/"@ =~= seq!['/']);
    assert(step.contains(step[0]));
    let nothing = Seq::<char>::empty();
    if dir.last() == '/' {
        let outer = dir.drop_last();
        assert(dir + step =~= outer + seq!['/'] + step);
        assert(dir =~= outer + seq!['/'] + nothing);
        if outer.len() > 0 {
            paths::components_one_step_at_a_time(outer, step);
            paths::components_one_step_at_a_time(outer, nothing);
        } else {
            paths::components_one_step_at_a_time(outer, step);
            paths::components_one_step_at_a_time(outer, nothing);
            assert(dir + step =~= seq!['/'] + step);
            assert(dir =~= seq!['/'] + nothing);
            assert(seq![seq!['/']].push(step) =~= seq![seq!['/'], step]);
        }
    } else {
        assert(dir + "/"@ + step =~= dir + seq!['/'] + step);
        paths::components_one_step_at_a_time(dir, step);
    }
    if path.len() > 0 {
        let longer = path + seq!['/'] + step;
        let whole = joined_path(dir, path);
        assert(longer[0] == path[0]);
        assert(joined_path(dir, longer) =~= whole + seq!['/'] + step);
        paths::components_one_step_at_a_time(whole, step);
    }
    assert(nothing + path =~= path);
}

/// The extension of a file is what stands behind the last dot of its name, and
/// is told without regard to the case of ASCII letters. A dot at the beginning
/// of the name does not count.
pub proof fn extensions_stand_behind_the_last_dot(
    stem: Seq<char>,
    ending: Seq<char>,
    wanted: Seq<char>,
)
    requires
        stem.len() > 0,
        !stem.contains('/'),
        ending.len() > 0,
        !ending.contains('/'),
        !ending.contains('.'),
    ensures
        has_extension(paths::components(stem + seq!['.'] + ending), wanted) <==> ending.len()
            == wanted.len() && forall|i: int|
            0 <= i < ending.len() ==> (#[trigger] ending[i]) == wanted[i] || ('A' <= ending[i]
                <= 'Z' && (wanted[i] as int) == (ending[i] as int) + 32) || ('A' <= wanted[i] <= 'Z'
                && (ending[i] as int) == (wanted[i] as int) + 32),
        !has_extension(paths::components(ending), wanted),
        !has_extension(paths::components(seq!['.'] + ending), wanted),
{
    let name = stem + seq!['.'] + ending;
    let hidden = seq!['.'] + ending;
    lemma_without_slash(name, stem, ending);
    assert forall|k: int| 0 <= k < ending.len() implies ending[k] != '.' by {
        assert(ending.contains(ending[k]));
    }
    assert forall|k: int| 0 <= k < hidden.len() implies hidden[k] != '/' by {
        if k > 0 {
            assert(ending.contains(hidden[k]));
        }
    }
    paths::components_one_step_at_a_time(Seq::empty(), name);
    paths::components_one_step_at_a_time(Seq::empty(), ending);
    paths::components_one_step_at_a_time(Seq::empty(), hidden);
    lemma_last_dot(name, stem.len() as int);
    lemma_last_dot(ending, -1);
    lemma_last_dot(hidden, 0);
    assert(name.len() >= 3);
    assert(name.skip(stem.len() as int + 1) =~= ending);
    assert(file_name(seq![name]) == Some(name));
    assert(has_extension(seq![name], wanted) == same_ignoring_case(ending, wanted));
}

/// A name of a stem, a dot and an ending has no slash where they have none.
proof fn lemma_without_slash(name: Seq<char>, stem: Seq<char>, ending: Seq<char>)
    requires
        name == stem + seq!['.'] + ending,
        !stem.contains('/'),
        !ending.contains('/'),
    ensures
        !name.contains('/'),
{
    assert forall|k: int| 0 <= k < name.len() implies name[k] != '/' by {
        if k < stem.len() {
            assert(stem.contains(name[k]));
        } else if k > stem.len() {
            assert(ending.contains(name[k]));
        }
    }
}

/// Discovery looks at the tracked files called `Cargo.toml` that are not
/// ignored, and at no others.
pub proof fn manifests_that_are_not_ignored_are_visited(ignored: Set<Seq<char>>, path: Seq<char>)
    ensures
        is_visited(ignored, path) <==> !ignored.contains(path) && paths::components(path).len() > 0
            && paths::components(path).last() == "Cargo.toml"@,
{
    reveal_strlit("Cargo.toml");
    assert(MANIFEST_FILE@.len() == 10);
    assert(MANIFEST_FILE@[0] == 'C');
    assert(seq!['/'].len() == 1 && seq!['.'].len() == 1 && seq!['.', '.'].len() == 2);
}

/// After a walk without a fault each tracked `Cargo.toml` that is not ignored is
/// a project, or a package that waits for its workspace.
pub proof fn walks_see_every_manifest(
    finder: FinderView,
    root: Seq<char>,
    index: Seq<Seq<char>>,
    ignored: Set<Seq<char>>,
    reads: Map<Seq<Seq<char>>, ManifestRead>,
    k: int,
)
    requires
        root.len() > 0,
        0 <= k < index.len(),
        !ignored.contains(index[k]),
        paths::components(index[k]).len() > 0,
        paths::components(index[k]).last() == "Cargo.toml"@,
        paths::components(joined_path(root, index[k])).len() > 0,
        paths::components(joined_path(root, index[k])).last() == "Cargo.toml"@,
        walk(finder, root, index, ignored, reads, index.len()).fault is None,
    ensures
        ({
            let after = walk(finder, root, index, ignored, reads, index.len()).finder;
            let at = paths::components(joined_path(root, index[k]));
            after.projects.contains_key(at) || exists|i: int|
                0 <= i < after.pending.len() && paths::components(
                    (#[trigger] after.pending[i]).path,
                ) == at
        }),
{
    manifests_that_are_not_ignored_are_visited(ignored, index[k]);
    lemma_walk_done(finder, root, index, ignored, reads, reads, index.len());
    let after = walk(finder, root, index, ignored, reads, index.len()).finder;
    let at = paths::components(joined_path(root, index[k]));
    assert(finder::is_passed_over(after, at));
}

/// A walk passes over the files that are ignored or not called `Cargo.toml`.
pub proof fn walks_pass_over_other_files(
    finder: FinderView,
    root: Seq<char>,
    index: Seq<Seq<char>>,
    ignored: Set<Seq<char>>,
    reads: Map<Seq<Seq<char>>, ManifestRead>,
    path: Seq<char>,
)
    requires
        ignored.contains(path) || paths::components(path).len() == 0 || paths::components(
            path,
        ).last() != "Cargo.toml"@,
    ensures
        walk(finder, root, index.push(path), ignored, reads, index.push(path).len()) == walk(
            finder,
            root,
            index,
            ignored,
            reads,
            index.len(),
        ),
{
    manifests_that_are_not_ignored_are_visited(ignored, path);
    lemma_walk_prefix(finder, root, index, path, ignored, reads, index.len());
    assert(index.push(path)[index.len() as int] == path);
}

/// A walk goes by the files in front.
proof fn lemma_walk_prefix(
    finder: FinderView,
    root: Seq<char>,
    index: Seq<Seq<char>>,
    path: Seq<char>,
    ignored: Set<Seq<char>>,
    reads: Map<Seq<Seq<char>>, ManifestRead>,
    n: nat,
)
    requires
        n <= index.len(),
    ensures
        walk(finder, root, index.push(path), ignored, reads, n) == walk(
            finder,
            root,
            index,
            ignored,
            reads,
            n,
        ),
    decreases n,
{
    if n > 0 {
        lemma_walk_prefix(finder, root, index, path, ignored, reads, (n - 1) as nat);
        assert(index.push(path)[n - 1] == index[n - 1]);
    }
}

/// A file is claimed by its name, and by a dot and its extension.
pub proof fn files_are_claimed_by_name_or_extension(
    entry: Seq<char>,
    parts: Seq<Seq<char>>,
    name: Seq<char>,
)
    ensures
        claims(name, parts, name),
        claims(seq!['.'] + entry, parts, name) <==> seq!['.'] + entry == name || has_extension(
            parts,
            entry,
        ),
        entry.len() > 0 && entry[0] != '.' ==> claims(entry, parts, name) == (entry == name),
        name.len() > 0 ==> !claims(Seq::empty(), parts, name),
{
    let dotted = seq!['.'] + entry;
    assert(dotted.drop_first() =~= entry);
    assert(dotted[0] == '.');
}

} // verus!
