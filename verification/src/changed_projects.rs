//! Which changes of files count, and which projects they change.

use crate::ancestors;
use crate::find_project_dirs;
use crate::find_project_dirs::TreeChange;
use crate::finder::FinderView;
use crate::paths;
use crate::project::ProjectKind;
use crate::text;
use vstd::prelude::*;
use vstd::string::*;

verus! {

/// The directory of a manifest holds a file.
proof fn lemma_dir_holds(manifest: Seq<Seq<char>>, file: Seq<Seq<char>>)
    requires
        manifest.len() > 0,
        manifest.last() == "Cargo.toml"@,
    ensures
        ancestors::is_root_of(manifest, file) == manifest.drop_last().is_prefix_of(file),
{
    reveal_strlit("Cargo.toml");
    if manifest.len() == 1 && manifest[0] == seq!['/'] {
        assert(manifest.last().len() == 1);
    }
    let dir = manifest.drop_last();
    assert(dir.len() <= file.len() ==> (file.take(dir.len() as int) == dir <==> dir.is_prefix_of(
        file,
    )));
}

/// Files change the projects around them: a package is changed afterwards where
/// it was before, or where one of the files lies at or below the directory of
/// its manifest. Nothing else of it changes.
pub proof fn files_change_the_packages_around_them(
    finder: FinderView,
    files: Set<Seq<Seq<char>>>,
    at: Seq<Seq<char>>,
)
    requires
        finder.projects.contains_key(at),
        finder.projects[at] matches ProjectKind::Package(package) && paths::components(
            package.path,
        ).len() > 0 && paths::components(package.path).last() == "Cargo.toml"@,
    ensures
        ({
            let after = find_project_dirs::with_marks(finder, files);
            let before = finder.projects[at]->Package_0;
            &&& after.projects.dom() == finder.projects.dom()
            &&& after.projects[at] matches ProjectKind::Package(package)
            &&& package.is_changed <==> before.is_changed || exists|file: Seq<Seq<char>>| #[trigger]
                files.contains(file) && paths::components(before.path).drop_last().is_prefix_of(
                    file,
                )
            &&& package.name == before.name
            &&& package.version == before.version
            &&& package.path == before.path
            &&& package.relative_path == before.relative_path
            &&& package.dependencies == before.dependencies
            &&& package.publishable_by_default == before.publishable_by_default
            &&& package.workspace_version_inherited == before.workspace_version_inherited
            &&& package.workspace_root == before.workspace_root
        }),
{
    let manifest = paths::components(finder.projects[at]->Package_0.path);
    assert forall|file: Seq<Seq<char>>| #[trigger] files.contains(file) implies (
    ancestors::is_root_of(manifest, file) == manifest.drop_last().is_prefix_of(file)) by {
        lemma_dir_holds(manifest, file);
    }
    assert(find_project_dirs::with_marks(finder, files).projects.dom() =~= finder.projects.dom());
}

/// Files change the workspaces around them in the same way.
pub proof fn files_change_the_workspaces_around_them(
    finder: FinderView,
    files: Set<Seq<Seq<char>>>,
    at: Seq<Seq<char>>,
)
    requires
        finder.projects.contains_key(at),
        finder.projects[at] matches ProjectKind::Workspace(workspace) && paths::components(
            workspace.path,
        ).len() > 0 && paths::components(workspace.path).last() == "Cargo.toml"@,
    ensures
        ({
            let after = find_project_dirs::with_marks(finder, files);
            let before = finder.projects[at]->Workspace_0;
            &&& after.projects.dom() == finder.projects.dom()
            &&& after.projects[at] matches ProjectKind::Workspace(workspace)
            &&& workspace.is_changed <==> before.is_changed || exists|file: Seq<Seq<char>>|
                #[trigger]
                files.contains(file) && paths::components(before.path).drop_last().is_prefix_of(
                    file,
                )
            &&& workspace.name == before.name
            &&& workspace.version == before.version
            &&& workspace.path == before.path
            &&& workspace.relative_path == before.relative_path
            &&& workspace.dependencies == before.dependencies
            &&& workspace.publishable_by_default == before.publishable_by_default
            &&& workspace.inherited_workspace_members == before.inherited_workspace_members
        }),
{
    let manifest = paths::components(finder.projects[at]->Workspace_0.path);
    assert forall|file: Seq<Seq<char>>| #[trigger] files.contains(file) implies (
    ancestors::is_root_of(manifest, file) == manifest.drop_last().is_prefix_of(file)) by {
        lemma_dir_holds(manifest, file);
    }
    assert(find_project_dirs::with_marks(finder, files).projects.dom() =~= finder.projects.dom());
}

/// Projects without a name get that of the repository; the others keep theirs.
pub proof fn nameless_projects_are_called_after_the_repository(
    finder: FinderView,
    name: Option<Seq<char>>,
    at: Seq<Seq<char>>,
)
    requires
        finder.projects.contains_key(at),
    ensures
        ({
            let after = find_project_dirs::with_names(finder, name);
            &&& after.projects.dom() == finder.projects.dom()
            &&& match finder.projects[at] {
                ProjectKind::Package(before) => {
                    &&& after.projects[at] matches ProjectKind::Package(package)
                    &&& package.name == if before.name is Some {
                        before.name
                    } else {
                        name
                    }
                    &&& package.version == before.version
                    &&& package.path == before.path
                    &&& package.is_changed == before.is_changed
                    &&& package.dependencies == before.dependencies
                    &&& package.publishable_by_default == before.publishable_by_default
                },
                ProjectKind::Workspace(before) => {
                    &&& after.projects[at] matches ProjectKind::Workspace(workspace)
                    &&& workspace.name == if before.name is Some {
                        before.name
                    } else {
                        name
                    }
                    &&& workspace.version == before.version
                    &&& workspace.path == before.path
                    &&& workspace.is_changed == before.is_changed
                    &&& workspace.dependencies == before.dependencies
                    &&& workspace.publishable_by_default == before.publishable_by_default
                },
            }
        }),
{
    assert(find_project_dirs::with_names(finder, name).projects.dom() =~= finder.projects.dom());
}

/// The last piece of a text is what stands behind its last separator.
proof fn lemma_last_piece(before: Seq<char>, last: Seq<char>, separator: char)
    requires
        !last.contains(separator),
    ensures
        text::split_pieces(before + seq![separator] + last, separator).last() == last,
        text::split_pieces(last, separator).last() == last,
    decreases last.len(),
{
    let whole = before + seq![separator] + last;
    if last.len() == 0 {
        assert(last =~= Seq::empty());
        assert(whole.last() == separator);
    } else {
        assert(last.contains(last.last()));
        assert(!last.drop_last().contains(separator)) by {
            if last.drop_last().contains(separator) {
                let i = last.drop_last().index_of(separator);
                assert(last[i] == separator);
            }
        }
        lemma_last_piece(before, last.drop_last(), separator);
        assert(whole.drop_last() =~= before + seq![separator] + last.drop_last());
        assert(whole.last() == last.last());
        text::split_pieces_not_empty(whole.drop_last(), separator);
        text::split_pieces_not_empty(last.drop_last(), separator);
        assert(last.drop_last().push(last.last()) =~= last);
    }
}

/// A repository is called after the last piece of its origin's path, without
/// `.git` behind it.
pub proof fn repositories_are_called_after_their_origin(
    before: Seq<char>,
    name: Seq<char>,
    root: Seq<char>,
)
    requires
        name.len() > 0,
        !name.contains('/'),
    ensures
        find_project_dirs::repository_name(Some(before + "/"@ + name + ".git"@), root) == Some(
            name,
        ),
        !".git"@.is_suffix_of(name) ==> find_project_dirs::repository_name(
            Some(before + "/"@ + name),
            root,
        ) == Some(name),
        !".git"@.is_suffix_of(name) ==> find_project_dirs::repository_name(Some(name), root)
            == Some(name),
{
    reveal_strlit(".git");
    reveal_strlit("/");
    assert("/"@ =~= seq!['/']);
    let full = name + ".git"@;
    assert(!full.contains('/')) by {
        if full.contains('/') {
            let i = full.index_of('/');
            if i < name.len() {
                assert(name[i] == '/');
            }
        }
    }
    assert(before + "/"@ + name + ".git"@ =~= before + seq!['/'] + full);
    lemma_last_piece(before, full, '/');
    assert(".git"@.is_suffix_of(full)) by {
        assert(full.subrange(full.len() - 4, full.len() as int) =~= ".git"@);
    }
    assert(full.take(full.len() - 4) =~= name);
    lemma_last_piece(before, name, '/');
}

/// A repository without a usable origin is called after its directory.
pub proof fn repositories_without_an_origin_are_called_after_their_directory(
    before: Seq<char>,
    root: Seq<char>,
)
    ensures
        ({
            let parts = paths::components(root);
            let name = if parts.len() == 0 || parts.last() == "/"@ || parts.last() == "."@
                || parts.last() == ".."@ {
                None
            } else {
                Some(parts.last())
            };
            &&& find_project_dirs::repository_name(None, root) == name
            &&& find_project_dirs::repository_name(Some(before + "/"@), root) == name
            &&& find_project_dirs::repository_name(Some(before + "/.git"@), root) == name
        }),
{
    reveal_strlit(".git");
    reveal_strlit("/");
    reveal_strlit("/.git");
    reveal_strlit(".");
    reveal_strlit("..");
    assert("/"@ =~= seq!['/']);
    assert("."@ =~= seq!['.']);
    assert(".."@ =~= seq!['.', '.']);
    let nothing = Seq::<char>::empty();
    lemma_last_piece(before, nothing, '/');
    assert(before + "/"@ =~= before + seq!['/'] + nothing);
    let git = ".git"@;
    assert(!git.contains('/'));
    lemma_last_piece(before, git, '/');
    assert(before + "/.git"@ =~= before + seq!['/'] + git);
    assert(git.is_suffix_of(git)) by {
        assert(git.subrange(0, git.len() as int) =~= git);
    }
}

/// The paths whose change counts are those that can be listed, that are not
/// ignored, and that have no component `.changepacks`, in their order.
pub proof fn changes_that_count_are_those_outside(
    entries: Seq<Result<String, String>>,
    ignored: Set<Seq<char>>,
)
    ensures
        find_project_dirs::dispatched(entries, ignored) == entries.filter(
            |entry: Result<String, String>|
                entry is Ok && !paths::components(entry->Ok_0@).contains(".changepacks"@)
                    && !ignored.contains(entry->Ok_0@),
        ).map_values(|entry: Result<String, String>| entry->Ok_0@),
    decreases entries.len(),
{
    let counts = |entry: Result<String, String>|
        entry is Ok && !paths::components(entry->Ok_0@).contains(".changepacks"@)
            && !ignored.contains(entry->Ok_0@);
    let path = |entry: Result<String, String>| entry->Ok_0@;
    reveal(Seq::filter);
    if entries.len() == 0 {
        assert(entries.filter(counts).map_values(path) =~= Seq::empty());
    } else {
        let earlier = entries.drop_last();
        let last = entries.last();
        changes_that_count_are_those_outside(earlier, ignored);
        if last is Ok {
            let parts = paths::components(last->Ok_0@);
            assert(find_project_dirs::is_own_path(parts) == parts.contains(".changepacks"@));
        }
        if counts(last) {
            assert(earlier.filter(counts).push(last).map_values(path) =~= earlier.filter(
                counts,
            ).map_values(path).push(last->Ok_0@));
        }
    }
}

/// Of the changes between two trees those count that have a file on one side,
/// in their order.
pub proof fn changes_of_directories_do_not_count(changes: Seq<TreeChange>)
    ensures
        find_project_dirs::leaf_changes(changes) == changes.filter(
            |change: TreeChange| !(change.is_tree && change.source_is_tree),
        ).map_values(|change: TreeChange| change.path),
    decreases changes.len(),
{
    let counts = |change: TreeChange| !(change.is_tree && change.source_is_tree);
    let path = |change: TreeChange| change.path;
    reveal(Seq::filter);
    if changes.len() == 0 {
        assert(changes.filter(counts).map_values(path) =~= Seq::empty());
    } else {
        let earlier = changes.drop_last();
        let last = changes.last();
        changes_of_directories_do_not_count(earlier);
        if counts(last) {
            assert(earlier.filter(counts).push(last).map_values(path) =~= earlier.filter(
                counts,
            ).map_values(path).push(last.path));
        }
    }
}

/// A changed file that counts is among the changed places, below the root of
/// the repository.
pub proof fn counted_changes_are_places(
    root: Seq<char>,
    ignored: Set<Seq<char>>,
    changes: Seq<TreeChange>,
    status: Seq<Result<String, String>>,
    path: Seq<char>,
)
    requires
        !paths::components(path).contains(".changepacks"@),
        !ignored.contains(path),
        (exists|i: int|
            0 <= i < status.len() && (#[trigger] status[i]) is Ok && status[i]->Ok_0@ == path) || (
        exists|i: int|
            0 <= i < changes.len() && !((#[trigger] changes[i]).is_tree
                && changes[i].source_is_tree) && changes[i].path is Ok && changes[i].path->Ok_0@
                == path),
    ensures
        find_project_dirs::changed_places(root, ignored, changes, status).contains(
            paths::components(find_project_dirs::joined_path(root, path)),
        ),
{
    let counts = |entry: Result<String, String>|
        entry is Ok && !paths::components(entry->Ok_0@).contains(".changepacks"@)
            && !ignored.contains(entry->Ok_0@);
    let text = |entry: Result<String, String>| entry->Ok_0@;
    let leaf = |change: TreeChange| !(change.is_tree && change.source_is_tree);
    let place = |change: TreeChange| change.path;
    let leaves = find_project_dirs::leaf_changes(changes);
    changes_that_count_are_those_outside(status, ignored);
    changes_that_count_are_those_outside(leaves, ignored);
    changes_of_directories_do_not_count(changes);
    if exists|i: int|
        0 <= i < status.len() && (#[trigger] status[i]) is Ok && status[i]->Ok_0@ == path {
        let i = choose|i: int|
            0 <= i < status.len() && (#[trigger] status[i]) is Ok && status[i]->Ok_0@ == path;
        assert(counts(status[i]) && status.contains(status[i]));
        status.lemma_filter_contains(counts, i);
        let k = status.filter(counts).index_of(status[i]);
        let list = find_project_dirs::dispatched(status, ignored);
        assert(list[k] == status.filter(counts).map_values(text)[k]);
        assert(list[k] == path);
    } else {
        let i = choose|i: int|
            0 <= i < changes.len() && !((#[trigger] changes[i]).is_tree
                && changes[i].source_is_tree) && changes[i].path is Ok && changes[i].path->Ok_0@
                == path;
        assert(leaf(changes[i]) && changes.contains(changes[i]));
        changes.lemma_filter_contains(leaf, i);
        let j = changes.filter(leaf).index_of(changes[i]);
        assert(leaves[j] == changes.filter(leaf).map_values(place)[j]);
        assert(leaves[j] == changes[i].path);
        assert(counts(leaves[j]) && leaves.contains(leaves[j]));
        leaves.lemma_filter_contains(counts, j);
        let k = leaves.filter(counts).index_of(leaves[j]);
        let list = find_project_dirs::dispatched(leaves, ignored);
        assert(list[k] == leaves.filter(counts).map_values(text)[k]);
        assert(list[k] == path);
    }
}

/// A path that counts comes from an entry that counts.
proof fn lemma_counted_entry(
    entries: Seq<Result<String, String>>,
    ignored: Set<Seq<char>>,
    k: int,
) -> (i: int)
    requires
        0 <= k < find_project_dirs::dispatched(entries, ignored).len(),
    ensures
        0 <= i < entries.len(),
        entries[i] is Ok,
        entries[i]->Ok_0@ == find_project_dirs::dispatched(entries, ignored)[k],
        !paths::components(entries[i]->Ok_0@).contains(".changepacks"@),
        !ignored.contains(entries[i]->Ok_0@),
{
    let counts = |entry: Result<String, String>|
        entry is Ok && !paths::components(entry->Ok_0@).contains(".changepacks"@)
            && !ignored.contains(entry->Ok_0@);
    let text = |entry: Result<String, String>| entry->Ok_0@;
    changes_that_count_are_those_outside(entries, ignored);
    let list = entries.filter(counts);
    assert(find_project_dirs::dispatched(entries, ignored)[k] == list.map_values(text)[k]);
    assert(list.contains(list[k]));
    entries.lemma_filter_contains_rev(counts, list[k]);
    assert(entries.contains(list[k]));
    let i = entries.index_of(list[k]);
    entries.lemma_filter_pred(counts, k);
    assert(counts(list[k]));
    i
}

/// Every changed place is that of a changed file that counts.
pub proof fn changed_places_are_counted_changes(
    root: Seq<char>,
    ignored: Set<Seq<char>>,
    changes: Seq<TreeChange>,
    status: Seq<Result<String, String>>,
    at: Seq<Seq<char>>,
) -> (path: Seq<char>)
    requires
        find_project_dirs::changed_places(root, ignored, changes, status).contains(at),
    ensures
        at == paths::components(find_project_dirs::joined_path(root, path)),
        !paths::components(path).contains(".changepacks"@),
        !ignored.contains(path),
        (exists|i: int|
            0 <= i < status.len() && (#[trigger] status[i]) is Ok && status[i]->Ok_0@ == path) || (
        exists|i: int|
            0 <= i < changes.len() && !((#[trigger] changes[i]).is_tree
                && changes[i].source_is_tree) && changes[i].path is Ok && changes[i].path->Ok_0@
                == path),
{
    let leaves = find_project_dirs::leaf_changes(changes);
    let first = find_project_dirs::dispatched(status, ignored);
    let second = find_project_dirs::dispatched(leaves, ignored);
    if find_project_dirs::places_below(root, first).contains(at) {
        let k = choose|k: int|
            0 <= k < first.len() && paths::components(
                find_project_dirs::joined_path(root, #[trigger] first[k]),
            ) == at;
        let i = lemma_counted_entry(status, ignored, k);
        assert(status[i]->Ok_0@ == first[k]);
        first[k]
    } else {
        let k = choose|k: int|
            0 <= k < second.len() && paths::components(
                find_project_dirs::joined_path(root, #[trigger] second[k]),
            ) == at;
        let j = lemma_counted_entry(leaves, ignored, k);
        let leaf = |change: TreeChange| !(change.is_tree && change.source_is_tree);
        let place = |change: TreeChange| change.path;
        changes_of_directories_do_not_count(changes);
        let list = changes.filter(leaf);
        assert(leaves[j] == list.map_values(place)[j]);
        assert(list.contains(list[j]));
        changes.lemma_filter_contains_rev(leaf, list[j]);
        assert(changes.contains(list[j]));
        changes.lemma_filter_pred(leaf, j);
        assert(leaf(list[j]));
        let i = changes.index_of(list[j]);
        assert(changes[i].path == leaves[j]);
        second[k]
    }
}

} // verus!
