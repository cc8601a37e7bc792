//! Discovering the projects of a repository, with every file that the
//! repository lists counted as a change: entries that it cannot read are left
//! out, and ignore patterns only keep manifests from being visited.

use crate::config::Config;
use crate::find_project_dirs;
use crate::find_project_dirs::{
    add_unique_files, check_changed_many, discover_project_dirs_with_gitignore,
};
use crate::finder;
use crate::finder::{FinderError, ManifestRead, RustProjectFinder};
use crate::ignore_patterns;
use crate::ignore_patterns::{build_config_gitignore, IgnoreError};
use crate::path_map::PathMap;
use crate::paths;
use ignore::gitignore::Gitignore;
use vstd::prelude::*;

verus! {

/// Why projects cannot be found.
#[derive(Debug)]
pub enum FilterError {
    /// The ignore patterns cannot be used, with what the matcher says.
    Ignore(String),
    /// A manifest cannot be used.
    Manifest(FinderError),
    /// The worktree cannot be listed, or the repository cannot be compared with
    /// its base branch.
    Repository(String),
}

impl FilterError {
    /// What to tell the user.
    pub open spec fn text(self) -> Seq<char> {
        match self {
            FilterError::Ignore(message) => message@,
            FilterError::Manifest(error) => error.text(),
            FilterError::Repository(message) => message@,
        }
    }

    /// What to tell the user.
    pub fn message(&self) -> (text: String)
        ensures
            text@ == self.text(),
    {
        match self {
            FilterError::Ignore(message) => message.clone(),
            FilterError::Manifest(error) => error.message(),
            FilterError::Repository(message) => message.clone(),
        }
    }
}

/// What the matcher says of patterns that cannot be used: of the first that is
/// malformed, or of all of them together.
pub open spec fn is_pattern_fault(message: Seq<char>, lines: Seq<Seq<char>>) -> bool {
    ||| exists|i: int| #[trigger]
        ignore_patterns::is_first_invalid_line(lines, i) && ignore_patterns::line_error(lines[i])
            == Some(message)
    ||| lines.len() > 0 && ignore_patterns::are_valid_lines(lines) && ignore_patterns::build_error(
        ignore_patterns::kept_lines(lines),
    ) == Some(message)
}

/// The paths that could be read, in order.
pub open spec fn readable(entries: Seq<Option<String>>) -> Seq<Seq<char>>
    decreases entries.len(),
{
    if entries.len() == 0 {
        Seq::empty()
    } else {
        let earlier = readable(entries.drop_last());
        match entries.last() {
            Some(path) => earlier.push(path@),
            None => earlier,
        }
    }
}

/// The paths that could be read.
pub fn readable_paths(entries: &Vec<Option<String>>) -> (list: Vec<String>)
    ensures
        paths::views(list@) == readable(entries@),
{
    let mut list: Vec<String> = Vec::new();
    let mut i: usize = 0;
    proof {
        assert(paths::views(list@) =~= Seq::<Seq<char>>::empty());
    }
    while i < entries.len()
        invariant
            i <= entries@.len(),
            paths::views(list@) == readable(entries@.take(i as int)),
        decreases entries@.len() - i,
    {
        proof {
            assert(entries@.take(i as int + 1).drop_last() =~= entries@.take(i as int));
        }
        match &entries[i] {
            Some(path) => {
                let ghost before = list@;
                list.push(path.clone());
                proof {
                    assert(paths::views(list@) =~= paths::views(before).push(path@));
                }
            },
            None => {},
        }
        i = i + 1;
    }
    proof {
        assert(entries@.take(i as int) =~= entries@);
    }
    list
}

/// The files that the worktree or the comparison with the base branch lists, by
/// their places.
pub open spec fn listed_places(
    root: Seq<char>,
    status: Seq<Option<String>>,
    changes: Seq<Option<String>>,
) -> Set<Seq<Seq<char>>> {
    find_project_dirs::places_below(root, readable(status)).union(
        find_project_dirs::places_below(root, readable(changes)),
    )
}

/// Finds the projects among the files of the git index, and marks those with a
/// file that the worktree or the comparison with the base branch lists.
/// `status` and `changes` are what the repository answered, without the paths
/// that it could not read. On an error the projects found so far stay in the
/// finder, and none of them is marked.
pub fn find_project_dirs(
    finder: &mut RustProjectFinder,
    git_root_path: &str,
    config: &Config,
    index: &Vec<String>,
    reads: &PathMap<ManifestRead>,
    origin_path: Option<&str>,
    status: &Result<Vec<Option<String>>, String>,
    changes: &Result<Vec<Option<String>>, String>,
) -> (result: Result<(), FilterError>)
    requires
        old(finder).well_formed(),
        reads.well_formed(),
    ensures
        ({
            let lines = paths::views(config.ignore@);
            let ignored = ignore_patterns::config_ignored(git_root_path@, *config);
            let files = paths::views(index@);
            let origin = match origin_path {
                Some(path) => Some(path@),
                None => None,
            };
            let walked = find_project_dirs::walk(
                old(finder)@,
                git_root_path@,
                files,
                ignored,
                reads@,
                files.len(),
            ).finder;
            let fault = find_project_dirs::discovery_fault(
                old(finder)@,
                git_root_path@,
                files,
                ignored,
                reads@,
            );
            let found = find_project_dirs::discovery(
                old(finder)@,
                git_root_path@,
                files,
                ignored,
                reads@,
                origin,
            );
            let usable = ignore_patterns::are_usable_lines(lines) && fault is None;
            &&& final(finder).well_formed()
            &&& match result {
                Ok(_) => usable && status is Ok && changes is Ok && final(finder)@
                    == find_project_dirs::with_marks(
                    found,
                    listed_places(git_root_path@, status->Ok_0@, changes->Ok_0@),
                ),
                Err(FilterError::Ignore(message)) => *final(finder) == *old(finder)
                    && is_pattern_fault(message@, lines),
                Err(FilterError::Manifest(error)) => ignore_patterns::are_usable_lines(lines)
                    && fault is Some && finder::is_fault(
                    error,
                    fault->0,
                    finder::found_at(reads@, paths::components(fault->0)),
                ) && final(finder)@ == walked,
                Err(FilterError::Repository(message)) => usable && final(finder)@ == found
                    && match status {
                    Err(why) => message@ == why@,
                    Ok(_) => changes is Err && message@ == changes->Err_0@,
                },
            }
        }),
{
    let gitignore: Option<Gitignore> = match build_config_gitignore(git_root_path, config) {
        Ok(gitignore) => gitignore,
        Err(IgnoreError::Invalid { pattern: _, message }) => {
            return Err(FilterError::Ignore(message));
        },
        Err(IgnoreError::Unbuildable { message }) => {
            return Err(FilterError::Ignore(message));
        },
    };
    let matcher: Option<&Gitignore> = match &gitignore {
        Some(gitignore) => Some(gitignore),
        None => None,
    };
    proof {
        assert(paths::views(config.ignore@).len() == config.ignore@.len());
        assert(ignore_patterns::ignored_by(matcher) == ignore_patterns::config_ignored(
            git_root_path@,
            *config,
        ));
    }
    match discover_project_dirs_with_gitignore(
        finder,
        git_root_path,
        index,
        matcher,
        reads,
        origin_path,
    ) {
        Ok(_) => {},
        Err(error) => {
            return Err(FilterError::Manifest(error));
        },
    }
    let edited: Vec<String> = match status {
        Ok(entries) => readable_paths(entries),
        Err(message) => {
            return Err(FilterError::Repository(message.clone()));
        },
    };
    let diff: Vec<String> = match changes {
        Ok(entries) => readable_paths(entries),
        Err(message) => {
            return Err(FilterError::Repository(message.clone()));
        },
    };
    let mut unique_files: Vec<String> = Vec::new();
    proof {
        assert(paths::place_set(unique_files@) =~= Set::empty());
    }
    add_unique_files(&mut unique_files, git_root_path, &edited);
    add_unique_files(&mut unique_files, git_root_path, &diff);
    proof {
        assert(paths::place_set(unique_files@) =~= listed_places(
            git_root_path@,
            status->Ok_0@,
            changes->Ok_0@,
        ));
    }
    check_changed_many(finder, &unique_files);
    Ok(())
}

/// The readable paths are those that are there, in their order.
pub proof fn unreadable_paths_are_left_out(entries: Seq<Option<String>>)
    ensures
        readable(entries) == entries.filter(|entry: Option<String>| entry is Some).map_values(
            |entry: Option<String>| entry->0@,
        ),
    decreases entries.len(),
{
    let there = |entry: Option<String>| entry is Some;
    let path = |entry: Option<String>| entry->0@;
    reveal(Seq::filter);
    if entries.len() == 0 {
        assert(entries.filter(there).map_values(path) =~= Seq::empty());
    } else {
        let earlier = entries.drop_last();
        unreadable_paths_are_left_out(earlier);
        if entries.last() is Some {
            assert(earlier.filter(there).push(entries.last()).map_values(path) =~= earlier.filter(
                there,
            ).map_values(path).push(entries.last()->0@));
        }
    }
}

/// Every readable path of the worktree and of the comparison is a place below
/// the root of the repository, and there are no others.
pub proof fn readable_paths_are_places(
    root: Seq<char>,
    status: Seq<Option<String>>,
    changes: Seq<Option<String>>,
    at: Seq<Seq<char>>,
)
    ensures
        listed_places(root, status, changes).contains(at) <==> (exists|i: int|
            0 <= i < status.len() && (#[trigger] status[i]) is Some && paths::components(
                find_project_dirs::joined_path(root, status[i]->0@),
            ) == at) || (exists|i: int|
            0 <= i < changes.len() && (#[trigger] changes[i]) is Some && paths::components(
                find_project_dirs::joined_path(root, changes[i]->0@),
            ) == at),
{
    lemma_readable_places(root, status, at);
    lemma_readable_places(root, changes, at);
}

/// The places of the readable paths.
proof fn lemma_readable_places(root: Seq<char>, entries: Seq<Option<String>>, at: Seq<Seq<char>>)
    ensures
        find_project_dirs::places_below(root, readable(entries)).contains(at) <==> exists|i: int|
            0 <= i < entries.len() && (#[trigger] entries[i]) is Some && paths::components(
                find_project_dirs::joined_path(root, entries[i]->0@),
            ) == at,
{
    let there = |entry: Option<String>| entry is Some;
    let path = |entry: Option<String>| entry->0@;
    unreadable_paths_are_left_out(entries);
    let kept = entries.filter(there);
    let list = readable(entries);
    if find_project_dirs::places_below(root, list).contains(at) {
        let k = choose|k: int|
            0 <= k < list.len() && paths::components(
                find_project_dirs::joined_path(root, #[trigger] list[k]),
            ) == at;
        assert(list[k] == kept.map_values(path)[k]);
        assert(kept.contains(kept[k]));
        entries.lemma_filter_contains_rev(there, kept[k]);
        entries.lemma_filter_pred(there, k);
        assert(there(kept[k]));
        let i = entries.index_of(kept[k]);
        assert(entries[i] == kept[k]);
    }
    if exists|i: int|
        0 <= i < entries.len() && (#[trigger] entries[i]) is Some && paths::components(
            find_project_dirs::joined_path(root, entries[i]->0@),
        ) == at {
        let i = choose|i: int|
            0 <= i < entries.len() && (#[trigger] entries[i]) is Some && paths::components(
                find_project_dirs::joined_path(root, entries[i]->0@),
            ) == at;
        assert(there(entries[i]));
        entries.lemma_filter_contains(there, i);
        let k = kept.index_of(entries[i]);
        assert(list[k] == kept.map_values(path)[k]);
    }
}

} // verus!
