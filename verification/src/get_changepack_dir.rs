//! The directory of the changepacks of a repository.

use crate::find_project_dirs;
use crate::find_project_dirs::join_path;
use crate::paths;
use vstd::prelude::*;
use vstd::string::*;

verus! {

/// The name of the directory that holds changepacks.
pub const CHANGEPACK_DIR: &'static str = ".changepack";

/// What to tell the user where there is no worktree.
pub const NO_WORKDIR: &'static str = "Failed to find current git repository";

/// The directory of the changepacks, below the worktree of the repository.
pub fn get_changepack_dir(workdir: Option<&str>) -> (result: Result<String, String>)
    ensures
        match result {
            Ok(dir) => workdir is Some && dir@ == find_project_dirs::joined_path(
                workdir->0@,
                CHANGEPACK_DIR@,
            ),
            Err(message) => workdir is None && message@ == NO_WORKDIR@,
        },
{
    match workdir {
        Some(root) => Ok(join_path(root, CHANGEPACK_DIR)),
        None => Err(NO_WORKDIR.to_string()),
    }
}

/// The directory lies right below the working directory.
pub proof fn the_directory_lies_below_the_working_directory(workdir: Seq<char>)
    requires
        workdir.len() > 0,
    ensures
        paths::components(find_project_dirs::joined_path(workdir, CHANGEPACK_DIR@))
            == paths::components(workdir).push(".changepack"@),
{
    reveal_strlit(".changepack");
    let step = CHANGEPACK_DIR@;
    assert(step.len() == 11);
    assert(seq!['.'].len() == 1);
    assert(!step.contains('/')) by {
        assert forall|i: int| 0 <= i < step.len() implies step[i] != '/' by {
            assert(i == 0 || i == 1 || i == 2 || i == 3 || i == 4 || i == 5 || i == 6 || i == 7 || i
                == 8 || i == 9 || i == 10);
        }
    }
    find_project_dirs::joined_paths_go_down(workdir, step, step);
}

} // verus!
