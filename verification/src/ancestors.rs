//! The directories above a manifest.

use crate::paths;
use crate::paths::{components_of, render};
use crate::text::same_text;
use vstd::prelude::*;
use vstd::string::*;

verus! {

/// The file that a project is found by.
pub const MANIFEST_FILE: &'static str = "Cargo.toml";

/// The fewest components that an ancestor has: an absolute path keeps its
/// root.
pub open spec fn fewest(parts: Seq<Seq<char>>) -> nat {
    if parts.len() > 0 && parts[0] == seq!['/'] {
        1
    } else {
        0
    }
}

/// How many components of a manifest's path lead to the root of its
/// repository, where its path below that root has so many components. The
/// whole path where it is not that long.
pub open spec fn root_length(parts: Seq<Seq<char>>, steps: nat) -> nat {
    if parts.len() >= steps + fewest(parts) {
        (parts.len() - steps) as nat
    } else {
        parts.len()
    }
}

/// The number of directories above a manifest's own, up to the root of its
/// repository.
pub open spec fn outer_count(parts: Seq<Seq<char>>, steps: nat) -> nat {
    let root = root_length(parts, steps);
    let low = if root < fewest(parts) {
        fewest(parts)
    } else {
        root
    };
    if parts.len() >= low + 2 {
        (parts.len() - 1 - low) as nat
    } else {
        0
    }
}

/// The `j`-th manifest to look for above a manifest: in the directory above
/// its own, then further up.
pub open spec fn outer_manifest(parts: Seq<Seq<char>>, j: int) -> Seq<Seq<char>> {
    parts.take(parts.len() - 2 - j).push(MANIFEST_FILE@)
}

/// The manifests to look for above a manifest, nearest first.
pub open spec fn outer_manifests(parts: Seq<Seq<char>>, steps: nat) -> Seq<Seq<Seq<char>>> {
    Seq::new(outer_count(parts, steps), |j: int| outer_manifest(parts, j))
}

/// `MANIFEST_FILE` is a step of a path.
proof fn lemma_manifest_file()
    ensures
        paths::is_step(MANIFEST_FILE@),
        !MANIFEST_FILE@.contains('/'),
{
    reveal_strlit("Cargo.toml");
    assert(MANIFEST_FILE@.len() == 10);
    assert forall|i: int| 0 <= i < MANIFEST_FILE@.len() implies MANIFEST_FILE@[i] != '/' by {
        assert(i == 0 || i == 1 || i == 2 || i == 3 || i == 4 || i == 5 || i == 6 || i == 7 || i
            == 8 || i == 9);
    }
}

/// The path of a manifest below a directory is a path.
proof fn lemma_manifest_below(parts: Seq<Seq<char>>, n: int)
    requires
        paths::is_component_list(parts),
        0 <= n <= parts.len(),
    ensures
        paths::is_component_list(parts.take(n).push(MANIFEST_FILE@)),
{
    lemma_manifest_file();
    let list = parts.take(n).push(MANIFEST_FILE@);
    assert forall|i: int| 0 < i < list.len() implies paths::is_step(#[trigger] list[i])
        && !list[i].contains('/') by {
        if i < n {
            assert(list[i] == parts[i]);
        }
    }
    if n > 0 {
        assert(list[0] == parts[0]);
    }
}

/// The fewest components that an ancestor has.
fn fewest_of(parts: &Vec<String>) -> (count: usize)
    ensures
        count == fewest(paths::views(parts@)),
{
    proof {
        reveal_strlit("/");
        assert("/"@ =~= seq!['/']);
        assert(paths::views(parts@).len() == parts@.len());
        if parts@.len() > 0 {
            assert(paths::views(parts@)[0] == parts@[0]@);
        }
    }
    if parts.len() > 0 && same_text(parts[0].as_str(), "/") {
        1
    } else {
        0
    }
}

fn root_length_of(parts: &Vec<String>, steps: usize) -> (length: usize)
    ensures
        length == root_length(paths::views(parts@), steps as nat),
{
    let low: usize = fewest_of(parts);
    proof {
        assert(paths::views(parts@).len() == parts@.len());
    }
    if parts.len() >= low && parts.len() - low >= steps {
        parts.len() - steps
    } else {
        parts.len()
    }
}

/// The root of the repository that a manifest was found under, by its path
/// below that root.
pub fn repository_root(manifest_path: &str, relative_path: &str) -> (root: String)
    ensures
        paths::components(root@) == paths::components(manifest_path@).take(
            root_length(
                paths::components(manifest_path@),
                paths::components(relative_path@).len(),
            ) as int,
        ),
{
    let parts: Vec<String> = components_of(manifest_path);
    let relative: Vec<String> = components_of(relative_path);
    let ghost list = paths::components(manifest_path@);
    proof {
        assert(paths::views(parts@).len() == parts@.len());
        assert(paths::views(relative@).len() == relative@.len());
    }
    let length: usize = root_length_of(&parts, relative.len());
    if length == parts.len() {
        proof {
            assert(list.take(length as int) =~= list);
        }
        return manifest_path.to_string();
    }
    proof {
        paths::components_are_component_list(manifest_path@);
        let front = list.take(length as int);
        assert(paths::is_component_list(front)) by {
            assert forall|i: int| 0 < i < front.len() implies paths::is_step(#[trigger] front[i])
                && !front[i].contains('/') by {
                assert(front[i] == list[i]);
            }
        }
        paths::rendered_components(front);
        assert(list.subrange(0, length as int) =~= front);
    }
    render(&parts, 0, length)
}

/// The manifests to look for above a manifest, nearest first, up to the root of
/// its repository.
pub fn outer_manifest_paths(manifest_path: &str, relative_path: &str) -> (list: Vec<String>)
    ensures
        list@.len() == outer_manifests(
            paths::components(manifest_path@),
            paths::components(relative_path@).len(),
        ).len(),
        forall|j: int|
            0 <= j < list@.len() ==> (#[trigger] list@[j])@ == paths::rendered(
                outer_manifest(paths::components(manifest_path@), j),
            ) && paths::components(list@[j]@) == outer_manifest(
                paths::components(manifest_path@),
                j,
            ),
{
    let parts: Vec<String> = components_of(manifest_path);
    let relative: Vec<String> = components_of(relative_path);
    let ghost all = paths::components(manifest_path@);
    proof {
        assert(paths::views(parts@).len() == parts@.len());
        assert(paths::views(relative@).len() == relative@.len());
        paths::components_are_component_list(manifest_path@);
    }
    let fewest: usize = fewest_of(&parts);
    let root: usize = root_length_of(&parts, relative.len());
    let low: usize = if root < fewest {
        fewest
    } else {
        root
    };
    let mut list: Vec<String> = Vec::new();
    if parts.len() < 2 || parts.len() - 2 < low {
        return list;
    }
    let count: usize = parts.len() - 1 - low;
    let mut j: usize = 0;
    while j < count
        invariant
            j <= count,
            count == outer_count(all, paths::components(relative_path@).len()),
            count <= parts@.len() - 1,
            parts@.len() == all.len(),
            paths::views(parts@) == all,
            all == paths::components(manifest_path@),
            paths::is_component_list(all),
            list@.len() == j,
            forall|k: int|
                0 <= k < j ==> (#[trigger] list@[k])@ == paths::rendered(outer_manifest(all, k))
                    && paths::components(list@[k]@) == outer_manifest(all, k),
        decreases count - j,
    {
        let length: usize = parts.len() - 2 - j;
        let mut place: Vec<String> = Vec::new();
        let mut i: usize = 0;
        while i < length
            invariant
                i <= length <= parts@.len(),
                place@ == parts@.take(i as int),
            decreases length - i,
        {
            place.push(parts[i].clone());
            proof {
                assert(place@ =~= parts@.take(i as int + 1));
            }
            i = i + 1;
        }
        place.push(MANIFEST_FILE.to_string());
        proof {
            assert(paths::views(place@) =~= outer_manifest(all, j as int));
            lemma_manifest_below(all, length as int);
            paths::rendered_components(outer_manifest(all, j as int));
            assert(paths::views(place@).subrange(0, place@.len() as int) =~= paths::views(place@));
        }
        list.push(render(&place, 0, place.len()));
        j = j + 1;
    }
    list
}

/// A path whose file is a manifest.
pub open spec fn is_manifest_place(at: Seq<Seq<char>>) -> bool {
    at.len() > 0 && at.last() == MANIFEST_FILE@
}

/// Whether the file of a path is a manifest.
pub fn is_manifest_path(path: &str) -> (manifest: bool)
    ensures
        manifest == is_manifest_place(paths::components(path@)),
{
    let parts: Vec<String> = components_of(path);
    proof {
        assert(paths::views(parts@).len() == parts@.len());
    }
    if parts.len() == 0 {
        return false;
    }
    proof {
        assert(paths::views(parts@).last() == parts@.last()@);
    }
    same_text(parts[parts.len() - 1].as_str(), MANIFEST_FILE)
}

/// No manifest above the root of the repository is looked for.
pub proof fn outer_manifests_stay_inside(parts: Seq<Seq<char>>, steps: nat, j: int)
    requires
        0 <= j < outer_manifests(parts, steps).len(),
    ensures
        root_length(parts, steps) < outer_manifests(parts, steps)[j].len(),
        outer_manifests(parts, steps)[j].take(root_length(parts, steps) as int) == parts.take(
            root_length(parts, steps) as int,
        ),
{
    let root = root_length(parts, steps) as int;
    let found = outer_manifests(parts, steps)[j];
    assert(found == outer_manifest(parts, j));
    assert(found.take(root) =~= parts.take(root));
}

/// The place of a manifest is not the root of a file system.
pub proof fn lemma_manifest_is_no_root(at: Seq<Seq<char>>)
    requires
        at.len() > 0,
        at.last() == MANIFEST_FILE@,
    ensures
        at.len() == 1 ==> fewest(at) == 0,
{
    lemma_manifest_file();
    if at.len() == 1 && at[0] == seq!['/'] {
        assert(MANIFEST_FILE@[0] == '/');
        assert(MANIFEST_FILE@.contains('/'));
    }
}

/// A manifest above another is at its place when it is written plainly.
pub proof fn lemma_outer_rendered(path: Seq<char>, j: int)
    requires
        0 <= j <= paths::components(path).len() - 2,
    ensures
        paths::components(paths::rendered(outer_manifest(paths::components(path), j)))
            == outer_manifest(paths::components(path), j),
{
    let parts = paths::components(path);
    paths::components_are_component_list(path);
    lemma_manifest_below(parts, parts.len() - 2 - j);
    paths::rendered_components(outer_manifest(parts, j));
}

/// A directory holds a path: the path starts with it.
pub open spec fn is_dir_of(dir: Seq<Seq<char>>, path: Seq<Seq<char>>) -> bool {
    dir.len() <= path.len() && path.take(dir.len() as int) == dir
}

/// The directory of a workspace root holds a member.
pub open spec fn is_root_of(root: Seq<Seq<char>>, member: Seq<Seq<char>>) -> bool {
    root.len() > fewest(root) && is_dir_of(root.drop_last(), member)
}

/// Whether the directory of a workspace root holds a member.
pub fn holds_member(root_path: &str, member_path: &str) -> (holds: bool)
    ensures
        holds == is_root_of(paths::components(root_path@), paths::components(member_path@)),
{
    let root: Vec<String> = components_of(root_path);
    let member: Vec<String> = components_of(member_path);
    let ghost r = paths::components(root_path@);
    let ghost m = paths::components(member_path@);
    proof {
        assert(paths::views(root@).len() == root@.len());
        assert(paths::views(member@).len() == member@.len());
    }
    if root.len() <= fewest_of(&root) || root.len() - 1 > member.len() {
        return false;
    }
    let mut i: usize = 0;
    while i < root.len() - 1
        invariant
            0 < root@.len(),
            i <= root@.len() - 1 <= member@.len(),
            paths::views(root@) == r,
            paths::views(member@) == m,
            r.len() == root@.len(),
            m.len() == member@.len(),
            r == paths::components(root_path@),
            m == paths::components(member_path@),
            forall|k: int| 0 <= k < i ==> r[k] == m[k],
        decreases root@.len() - i,
    {
        proof {
            assert(r[i as int] == root@[i as int]@);
            assert(m[i as int] == member@[i as int]@);
        }
        if !same_text(root[i].as_str(), member[i].as_str()) {
            proof {
                assert(m.take(r.len() - 1)[i as int] == m[i as int]);
                assert(r.drop_last()[i as int] == r[i as int]);
            }
            return false;
        }
        i = i + 1;
    }
    proof {
        assert(m.take(r.len() - 1) =~= r.drop_last());
    }
    true
}

/// Of two manifests that hold the same member, the deeper one is in the
/// directory of the other or below it; at the same depth they are the same.
pub proof fn lemma_same_depth(
    left: Seq<Seq<char>>,
    right: Seq<Seq<char>>,
    member: Seq<Seq<char>>,
)
    requires
        is_manifest_place(left),
        is_manifest_place(right),
        is_root_of(left, member),
        is_root_of(right, member),
        left.len() == right.len(),
    ensures
        left == right,
{
    assert(left.drop_last() == right.drop_last());
    assert(left =~= left.drop_last().push(left.last()));
    assert(right =~= right.drop_last().push(right.last()));
}

} // verus!
