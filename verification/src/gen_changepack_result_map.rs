//! What a run will do to each project.

use crate::bump_version_with;
use crate::bump_version_with::version_error_message;
use crate::ordering;
use crate::paths;
use crate::paths::{components_of, get_relative_path};
use crate::project::{Project, ProjectView};
use crate::project_names;
use crate::text::{joined_text, joined_text3, same_text};
use crate::text_set;
use crate::update_map;
use crate::update_map::{copy_logs, ChangePackResultLog, EntryView, LogView, UpdateMap};
use crate::version;
use crate::version::{next_version_or_default, InvalidVersion};
use vstd::prelude::*;
use vstd::string::*;

verus! {

/// What a run will do to one project.
#[derive(Debug)]
pub struct ChangePackResult {
    pub logs: Vec<ChangePackResultLog>,
    pub version: Option<String>,
    pub next_version: Option<String>,
    pub name: Option<String>,
    pub changed: bool,
    pub path: String,
}

/// [`ChangePackResult`] over mathematical values.
#[verifier::ext_equal]
pub struct ResultView {
    pub logs: Seq<LogView>,
    pub version: Option<Seq<char>>,
    pub next_version: Option<Seq<char>>,
    pub name: Option<Seq<char>>,
    pub changed: bool,
    pub path: Seq<char>,
}

impl View for ChangePackResult {
    type V = ResultView;

    open spec fn view(&self) -> ResultView {
        ResultView {
            logs: update_map::log_views(self.logs@),
            version: text_set::optional_view(self.version),
            next_version: text_set::optional_view(self.next_version),
            name: text_set::optional_view(self.name),
            changed: self.changed,
            path: self.path@,
        }
    }
}

/// What a component of a path is sorted by: the root, `.` and `..` come before
/// every name, in this order.
pub open spec fn component_key(part: Seq<char>) -> Seq<char> {
    if part == seq!['/'] {
        seq!['\u{0}']
    } else if part == seq!['.'] {
        seq!['\u{1}']
    } else if part == seq!['.', '.'] {
        seq!['\u{2}']
    } else {
        seq!['\u{3}'] + part
    }
}

/// What a path is sorted by, component by component.
pub open spec fn place_key(place: Seq<Seq<char>>) -> Seq<Seq<char>> {
    place.map_values(|part: Seq<char>| component_key(part))
}

/// The order of paths, component by component.
pub open spec fn place_lt(left: Seq<Seq<char>>, right: Seq<Seq<char>>) -> bool {
    ordering::list_lt(place_key(left), place_key(right))
}

/// Different places have different keys.
proof fn lemma_place_keys(left: Seq<Seq<char>>, right: Seq<Seq<char>>)
    requires
        place_key(left) == place_key(right),
    ensures
        left == right,
{
    assert(left.len() == place_key(left).len());
    assert(right.len() == place_key(right).len());
    assert forall|i: int| 0 <= i < left.len() implies left[i] == right[i] by {
        let l = component_key(left[i]);
        let r = component_key(right[i]);
        assert(place_key(left)[i] == l);
        assert(place_key(right)[i] == r);
        assert(l[0] == r[0]);
        if l[0] == '\u{3}' {
            assert(l.drop_first() =~= left[i]);
            assert(r.drop_first() =~= right[i]);
        }
    }
    assert(left =~= right);
}

/// What a path is sorted by.
fn place_key_of(path: &str) -> (key: Vec<String>)
    ensures
        paths::views(key@) == place_key(paths::components(path@)),
{
    let parts: Vec<String> = components_of(path);
    let ghost place = paths::components(path@);
    let mut key: Vec<String> = Vec::new();
    let mut i: usize = 0;
    proof {
        reveal_strlit("/");
        reveal_strlit(".");
        reveal_strlit("..");
        reveal_strlit("\u{0}");
        reveal_strlit("\u{1}");
        reveal_strlit("\u{2}");
        reveal_strlit("\u{3}");
        assert("/"@ =~= seq!['/']);
        assert("."@ =~= seq!['.']);
        assert(".."@ =~= seq!['.', '.']);
        assert("\u{0}"@ =~= seq!['\u{0}']);
        assert("\u{1}"@ =~= seq!['\u{1}']);
        assert("\u{2}"@ =~= seq!['\u{2}']);
        assert("\u{3}"@ =~= seq!['\u{3}']);
        assert(place.len() == parts@.len());
    }
    while i < parts.len()
        invariant
            i <= parts@.len(),
            place == paths::views(parts@),
            place.len() == parts@.len(),
            key@.len() == i,
            "/"@ == seq!['/'],
            "."@ == seq!['.'],
            ".."@ == seq!['.', '.'],
            "\u{0}"@ == seq!['\u{0}'],
            "\u{1}"@ == seq!['\u{1}'],
            "\u{2}"@ == seq!['\u{2}'],
            "\u{3}"@ == seq!['\u{3}'],
            forall|k: int| 0 <= k < i ==> (#[trigger] key@[k])@ == component_key(place[k]),
        decreases parts@.len() - i,
    {
        let part: &str = parts[i].as_str();
        proof {
            assert(place[i as int] == part@);
        }
        if same_text(part, "/") {
            key.push("\u{0}".to_string());
        } else if same_text(part, ".") {
            key.push("\u{1}".to_string());
        } else if same_text(part, "..") {
            key.push("\u{2}".to_string());
        } else {
            key.push(joined_text("\u{3}", part));
        }
        i = i + 1;
    }
    proof {
        assert(paths::views(key@) =~= place_key(place));
    }
    key
}

/// The results of all projects, in the order of their paths.
#[derive(Debug)]
pub struct ResultMap {
    pub entries: Vec<ChangePackResult>,
}

/// The place of a result.
pub open spec fn place_of(result: ChangePackResult) -> Seq<Seq<char>> {
    paths::components(result.path@)
}

/// Whether there is a result for the place.
pub open spec fn has_place(entries: Seq<ChangePackResult>, place: Seq<Seq<char>>) -> bool {
    exists|i: int| 0 <= i < entries.len() && place_of(#[trigger] entries[i]) == place
}

/// The position of the result for the place.
pub open spec fn position_of(entries: Seq<ChangePackResult>, place: Seq<Seq<char>>) -> int {
    choose|i: int| 0 <= i < entries.len() && place_of(#[trigger] entries[i]) == place
}

impl View for ResultMap {
    type V = Map<Seq<Seq<char>>, ResultView>;

    /// Results by the components of their path.
    open spec fn view(&self) -> Map<Seq<Seq<char>>, ResultView> {
        Map::new(
            |place: Seq<Seq<char>>| has_place(self.entries@, place),
            |place: Seq<Seq<char>>| self.entries@[position_of(self.entries@, place)]@,
        )
    }
}

impl ResultMap {
    /// The results stand in the order of their paths, each path once.
    pub open spec fn well_formed(&self) -> bool {
        forall|i: int, j: int|
            0 <= i < j < self.entries@.len() ==> place_lt(
                place_of(#[trigger] self.entries@[i]),
                place_of(#[trigger] self.entries@[j]),
            )
    }

    /// Each result is what the view holds for its path.
    pub proof fn entry_in_view(&self, i: int)
        requires
            self.well_formed(),
            0 <= i < self.entries@.len(),
        ensures
            self@.contains_key(place_of(self.entries@[i])),
            self@[place_of(self.entries@[i])] == self.entries@[i]@,
    {
        let place = place_of(self.entries@[i]);
        let j = position_of(self.entries@, place);
        assert(0 <= j < self.entries@.len() && place_of(self.entries@[j]) == place);
        ordering::list_lt_total(place_key(place), place_key(place));
        assert(i == j);
    }

    /// No results.
    pub fn new() -> (map: Self)
        ensures
            map.well_formed(),
            map@ == Map::<Seq<Seq<char>>, ResultView>::empty(),
    {
        let map: ResultMap = ResultMap { entries: Vec::new() };
        proof {
            assert(map@ =~= Map::empty());
        }
        map
    }

    /// Sets the result for its path, in place of the one that was there.
    pub fn insert(&mut self, result: ChangePackResult)
        requires
            old(self).well_formed(),
        ensures
            final(self).well_formed(),
            final(self)@ == old(self)@.insert(place_of(result), result@),
    {
        let ghost before = *self;
        let ghost place = place_of(result);
        let key: Vec<String> = place_key_of(result.path.as_str());
        let mut at: usize = 0;
        let mut same: bool = false;
        while at < self.entries.len() && ordering::list_before(
            &place_key_of(self.entries[at].path.as_str()),
            &key,
        )
            invariant
                at <= self.entries@.len(),
                *self == before,
                paths::views(key@) == place_key(place),
                forall|k: int|
                    0 <= k < at ==> place_lt(place_of(#[trigger] self.entries@[k]), place),
            decreases self.entries@.len() - at,
        {
            at = at + 1;
        }
        if at < self.entries.len() {
            same = paths::same_path(self.entries[at].path.as_str(), result.path.as_str());
        }
        proof {
            if at < before.entries@.len() {
                let here = place_of(before.entries@[at as int]);
                ordering::list_lt_total(place_key(here), place_key(place));
                if !same {
                    if place_key(here) == place_key(place) {
                        lemma_place_keys(here, place);
                    }
                    assert(place_lt(place, here));
                }
                assert forall|k: int| at < k < before.entries@.len() implies place_lt(
                    place,
                    place_of(#[trigger] before.entries@[k]),
                ) by {
                    assert(place_lt(here, place_of(before.entries@[k])));
                    if !same {
                        ordering::list_lt_transitive(
                            place_key(place),
                            place_key(here),
                            place_key(place_of(before.entries@[k])),
                        );
                    }
                }
            }
        }
        if same {
            self.entries.set(at, result);
            proof {
                assert(self.entries@ == before.entries@.update(at as int, result));
                assert forall|i: int| 0 <= i < self.entries@.len() implies place_of(
                    #[trigger] self.entries@[i],
                ) == place_of(before.entries@[i]) by {}
                assert forall|i: int, j: int| 0 <= i < j < self.entries@.len() implies place_lt(
                    place_of(#[trigger] self.entries@[i]),
                    place_of(#[trigger] self.entries@[j]),
                ) by {
                    assert(place_lt(place_of(before.entries@[i]), place_of(before.entries@[j])));
                }
            }
        } else {
            self.entries.insert(at, result);
            proof {
                assert(self.entries@ == before.entries@.insert(at as int, result));
                assert forall|i: int, j: int| 0 <= i < j < self.entries@.len() implies place_lt(
                    place_of(#[trigger] self.entries@[i]),
                    place_of(#[trigger] self.entries@[j]),
                ) by {
                    let oi = if i < at { i } else { i - 1 };
                    let oj = if j < at { j } else { j - 1 };
                    if i != at {
                        assert(self.entries@[i] == before.entries@[oi]);
                    }
                    if j != at {
                        assert(self.entries@[j] == before.entries@[oj]);
                    }
                }
            }
        }
        proof {
            let wanted = before@.insert(place, result@);
            assert(place_of(self.entries@[at as int]) == place);
            assert forall|k: Seq<Seq<char>>| self@.contains_key(k) == wanted.contains_key(k) by {
                if before@.contains_key(k) {
                    let i = position_of(before.entries@, k);
                    let n = if same || i < at { i } else { i + 1 };
                    assert(place_of(self.entries@[n]) == k || k == place);
                }
                if self@.contains_key(k) && k != place {
                    let n = position_of(self.entries@, k);
                    assert(n != at);
                    let i = if same || n < at { n } else { n - 1 };
                    assert(before.entries@[i] == self.entries@[n]);
                    before.entry_in_view(i);
                }
            }
            assert forall|k: Seq<Seq<char>>| self@.contains_key(k) implies self@[k] == wanted[k] by {
                let n = position_of(self.entries@, k);
                self.entry_in_view(n);
                self.entry_in_view(at as int);
                if k != place {
                    assert(n != at);
                    let i = if same || n < at { n } else { n - 1 };
                    assert(before.entries@[i] == self.entries@[n]);
                    before.entry_in_view(i);
                }
            }
            assert(self@ =~= wanted);
        }
    }
}

/// Why results cannot be computed.
#[derive(Debug)]
pub enum ResultError {
    /// A project lies outside the repository.
    OutsideRepository { path: String },
    /// A version cannot be bumped.
    Version { path: String, invalid: InvalidVersion },
}

impl ResultError {
    /// What to tell the user.
    pub open spec fn text(self) -> Seq<char> {
        match self {
            ResultError::OutsideRepository { path } => "Project "@ + path@
                + " is outside the repository"@,
            ResultError::Version { path, invalid } => bump_version_with::version_error_text(
                path@,
                invalid.version@,
            ),
        }
    }

    /// What to tell the user.
    pub fn message(&self) -> (text: String)
        ensures
            text@ == self.text(),
    {
        match self {
            ResultError::OutsideRepository { path } => joined_text3(
                "Project ",
                path.as_str(),
                " is outside the repository",
            ),
            ResultError::Version { path, invalid } => version_error_message(
                path.as_str(),
                invalid,
            ),
        }
    }
}

/// The version that a bump of the project starts from.
pub open spec fn current_version(project: ProjectView) -> Seq<char> {
    match project.version {
        Some(v) => v,
        None => version::DEFAULT_VERSION@,
    }
}

/// The scheduled update of a project.
pub open spec fn update_of(
    project: ProjectView,
    root: Seq<char>,
    updates: Map<Seq<Seq<char>>, EntryView>,
) -> Option<EntryView> {
    let place = paths::components(paths::below(project.path, root)->0);
    if updates.contains_key(place) {
        Some(updates[place])
    } else {
        None
    }
}

/// The result of a project can be computed: it lies in the repository, and its
/// version can be bumped where an update is scheduled.
pub open spec fn has_result(
    project: ProjectView,
    root: Seq<char>,
    updates: Map<Seq<Seq<char>>, EntryView>,
) -> bool {
    paths::below(project.path, root) is Some && match update_of(project, root, updates) {
        Some(update) => version::next_version_text(
            current_version(project),
            update.update_type,
        ) is Some,
        None => true,
    }
}

/// The result of a project.
pub open spec fn result_of(
    project: ProjectView,
    root: Seq<char>,
    updates: Map<Seq<Seq<char>>, EntryView>,
) -> ResultView {
    ResultView {
        logs: match update_of(project, root, updates) {
            Some(update) => update.logs,
            None => Seq::empty(),
        },
        version: project.version,
        next_version: match update_of(project, root, updates) {
            Some(update) => version::next_version_text(
                current_version(project),
                update.update_type,
            ),
            None => None,
        },
        name: project.name,
        changed: project.is_changed,
        path: paths::below(project.path, root)->0,
    }
}

/// The results of the first `n` projects; of two at one place the later counts.
pub open spec fn results(
    projects: Seq<ProjectView>,
    root: Seq<char>,
    updates: Map<Seq<Seq<char>>, EntryView>,
    n: nat,
) -> Map<Seq<Seq<char>>, ResultView>
    decreases n,
{
    if n == 0 {
        Map::empty()
    } else {
        let result = result_of(projects[n - 1], root, updates);
        results(projects, root, updates, (n - 1) as nat).insert(
            paths::components(result.path),
            result,
        )
    }
}

/// The error says why the result of a project cannot be computed.
pub open spec fn is_result_fault(
    error: ResultError,
    project: ProjectView,
    root: Seq<char>,
    updates: Map<Seq<Seq<char>>, EntryView>,
) -> bool {
    match error {
        ResultError::OutsideRepository { path } => paths::below(project.path, root) is None && path@
            == project.path,
        ResultError::Version { path, invalid } => paths::below(project.path, root) == Some(path@)
            && update_of(project, root, updates) is Some && version::next_version_text(
            current_version(project),
            update_of(project, root, updates)->0.update_type,
        ) is None && invalid.version@ == current_version(project),
    }
}

/// The first project whose result cannot be computed.
pub open spec fn is_first_without_result(
    projects: Seq<ProjectView>,
    root: Seq<char>,
    updates: Map<Seq<Seq<char>>, EntryView>,
    i: int,
) -> bool {
    0 <= i < projects.len() && !has_result(projects[i], root, updates) && forall|k: int|
        0 <= k < i ==> has_result(#[trigger] projects[k], root, updates)
}

fn owned_text(text: Option<&str>) -> (owned: Option<String>)
    ensures
        match text {
            Some(t) => text_set::optional_view(owned) == Some(t@),
            None => owned is None,
        },
{
    match text {
        Some(t) => Some(t.to_string()),
        None => None,
    }
}

/// The result of a project.
fn project_result(project: &Project, repo_root_path: &str, update_result: &UpdateMap) -> (outcome:
    Result<ChangePackResult, ResultError>)
    requires
        update_result.well_formed(),
    ensures
        match outcome {
            Ok(result) => has_result(project@, repo_root_path@, update_result@) && result@
                == result_of(project@, repo_root_path@, update_result@),
            Err(error) => !has_result(project@, repo_root_path@, update_result@)
                && is_result_fault(error, project@, repo_root_path@, update_result@),
        },
{
    let key: String = match get_relative_path(repo_root_path, project.path()) {
        Some(key) => key,
        None => {
            return Err(ResultError::OutsideRepository { path: project.path().to_string() });
        },
    };
    let version: Option<String> = owned_text(project.version());
    let name: Option<String> = owned_text(project.name());
    match update_result.get(key.as_str()) {
        Some(update) => {
            let next: String = match next_version_or_default(
                project.version(),
                update.update_type,
            ) {
                Ok(next) => next,
                Err(invalid) => {
                    return Err(ResultError::Version { path: key, invalid });
                },
            };
            Ok(
                ChangePackResult {
                    logs: copy_logs(&update.logs),
                    version,
                    next_version: Some(next),
                    name,
                    changed: project.is_changed(),
                    path: key,
                },
            )
        },
        None => {
            let logs: Vec<ChangePackResultLog> = Vec::new();
            proof {
                assert(update_map::log_views(logs@) =~= Seq::empty());
            }
            Ok(
                ChangePackResult {
                    logs,
                    version,
                    next_version: None,
                    name,
                    changed: project.is_changed(),
                    path: key,
                },
            )
        },
    }
}

/// The results of all projects, by their path in the repository.
pub fn gen_changepack_result_map(
    projects: &[&Project],
    repo_root_path: &str,
    update_result: &UpdateMap,
) -> (outcome: Result<ResultMap, ResultError>)
    requires
        update_result.well_formed(),
    ensures
        ({
            let all = project_names::facts(projects@);
            match outcome {
                Ok(map) => map.well_formed() && (forall|k: int|
                    0 <= k < all.len() ==> has_result(
                        #[trigger] all[k],
                        repo_root_path@,
                        update_result@,
                    )) && map@ == results(all, repo_root_path@, update_result@, all.len()),
                Err(error) => exists|i: int| #[trigger]
                    is_first_without_result(all, repo_root_path@, update_result@, i)
                        && is_result_fault(error, all[i], repo_root_path@, update_result@),
            }
        }),
{
    let ghost all = project_names::facts(projects@);
    let mut map: ResultMap = ResultMap::new();
    let mut i: usize = 0;
    while i < projects.len()
        invariant
            i <= projects@.len(),
            all == project_names::facts(projects@),
            all.len() == projects@.len(),
            update_result.well_formed(),
            map.well_formed(),
            forall|k: int|
                0 <= k < i ==> has_result(#[trigger] all[k], repo_root_path@, update_result@),
            map@ == results(all, repo_root_path@, update_result@, i as nat),
        decreases projects@.len() - i,
    {
        proof {
            assert(all[i as int] == projects@[i as int]@);
        }
        match project_result(projects[i], repo_root_path, update_result) {
            Ok(result) => map.insert(result),
            Err(error) => {
                proof {
                    assert(is_first_without_result(
                        all,
                        repo_root_path@,
                        update_result@,
                        i as int,
                    ));
                }
                return Err(error);
            },
        }
        i = i + 1;
    }
    Ok(map)
}

/// Every project has a result under its path in the repository, and a next
/// version in it exactly where an update is scheduled.
pub proof fn every_project_has_a_result(
    projects: Seq<ProjectView>,
    root: Seq<char>,
    updates: Map<Seq<Seq<char>>, EntryView>,
    i: int,
)
    requires
        0 <= i < projects.len(),
        forall|k: int| 0 <= k < projects.len() ==> has_result(#[trigger] projects[k], root, updates),
    ensures
        ({
            let place = paths::components(paths::below(projects[i].path, root)->0);
            let all = results(projects, root, updates, projects.len());
            &&& all.contains_key(place)
            &&& all[place].next_version is Some <==> updates.contains_key(place)
        }),
{
    lemma_results(projects, root, updates, projects.len(), i);
}

proof fn lemma_results(
    projects: Seq<ProjectView>,
    root: Seq<char>,
    updates: Map<Seq<Seq<char>>, EntryView>,
    n: nat,
    i: int,
)
    requires
        0 <= i < n <= projects.len(),
        forall|k: int| 0 <= k < projects.len() ==> has_result(#[trigger] projects[k], root, updates),
    ensures
        ({
            let place = paths::components(paths::below(projects[i].path, root)->0);
            let all = results(projects, root, updates, n);
            &&& all.contains_key(place)
            &&& all[place].next_version is Some <==> updates.contains_key(place)
        }),
    decreases n,
{
    assert(has_result(projects[n - 1], root, updates));
    if i < n - 1 {
        lemma_results(projects, root, updates, (n - 1) as nat, i);
    }
}


/// The results of the last project at a place.
proof fn lemma_last_result(
    projects: Seq<ProjectView>,
    root: Seq<char>,
    updates: Map<Seq<Seq<char>>, EntryView>,
    n: nat,
    i: int,
)
    requires
        0 <= i < n <= projects.len(),
        forall|k: int| 0 <= k < projects.len() ==> has_result(#[trigger] projects[k], root, updates),
        forall|k: int|
            i < k < n ==> paths::components(paths::below((#[trigger] projects[k]).path, root)->0)
                != paths::components(paths::below(projects[i].path, root)->0),
    ensures
        ({
            let place = paths::components(paths::below(projects[i].path, root)->0);
            let all = results(projects, root, updates, n);
            all.contains_key(place) && all[place] == result_of(projects[i], root, updates)
        }),
    decreases n,
{
    if i < n - 1 {
        lemma_last_result(projects, root, updates, (n - 1) as nat, i);
        assert(paths::components(paths::below(projects[n - 1].path, root)->0) != paths::components(
            paths::below(projects[i].path, root)->0,
        ));
    }
}

/// The result under a path carries the facts of the project there, whatever is
/// scheduled: its name, its version, and whether it changed. Of several projects
/// at one place it is the last. Where an update is scheduled at that place, the
/// result has the changelog of the update and the version after its bump, else
/// neither.
pub proof fn results_carry_the_facts_of_their_projects(
    projects: Seq<ProjectView>,
    root: Seq<char>,
    updates: Map<Seq<Seq<char>>, EntryView>,
    i: int,
)
    requires
        0 <= i < projects.len(),
        forall|k: int| 0 <= k < projects.len() ==> has_result(#[trigger] projects[k], root, updates),
        forall|k: int|
            i < k < projects.len() ==> paths::components(
                paths::below((#[trigger] projects[k]).path, root)->0,
            ) != paths::components(paths::below(projects[i].path, root)->0),
    ensures
        ({
            let path = paths::below(projects[i].path, root)->0;
            let place = paths::components(path);
            let all = results(projects, root, updates, projects.len());
            &&& all.contains_key(place)
            &&& all[place].path == path
            &&& all[place].name == projects[i].name
            &&& all[place].version == projects[i].version
            &&& all[place].changed == projects[i].is_changed
            &&& updates.contains_key(place) ==> all[place].logs == updates[place].logs
            &&& updates.contains_key(place) ==> all[place].next_version
                == version::next_version_text(
                match projects[i].version {
                    Some(v) => v,
                    None => "0.0.0"@,
                },
                updates[place].update_type,
            ) && all[place].next_version is Some
            &&& !updates.contains_key(place) ==> all[place].logs.len() == 0
                && all[place].next_version is None
        }),
{
    lemma_last_result(projects, root, updates, projects.len(), i);
    assert(has_result(projects[i], root, updates));
}

/// Every result is that of a project: there is none under a path where no
/// project lies.
pub proof fn every_result_has_a_project(
    projects: Seq<ProjectView>,
    root: Seq<char>,
    updates: Map<Seq<Seq<char>>, EntryView>,
    place: Seq<Seq<char>>,
)
    requires
        results(projects, root, updates, projects.len()).contains_key(place),
    ensures
        exists|i: int|
            0 <= i < projects.len() && paths::components(
                paths::below((#[trigger] projects[i]).path, root)->0,
            ) == place,
{
    lemma_result_has_project(projects, root, updates, projects.len(), place);
}

proof fn lemma_result_has_project(
    projects: Seq<ProjectView>,
    root: Seq<char>,
    updates: Map<Seq<Seq<char>>, EntryView>,
    n: nat,
    place: Seq<Seq<char>>,
)
    requires
        n <= projects.len(),
        results(projects, root, updates, n).contains_key(place),
    ensures
        exists|i: int|
            0 <= i < n && paths::components(paths::below((#[trigger] projects[i]).path, root)->0)
                == place,
    decreases n,
{
    if n > 0 {
        if paths::components(paths::below(projects[n - 1].path, root)->0) != place {
            lemma_result_has_project(projects, root, updates, (n - 1) as nat, place);
        }
    }
}

/// Results are refused exactly where a project lies outside the repository, or
/// an update of a version that cannot move is scheduled for one.
pub proof fn results_are_owed(
    project: ProjectView,
    root: Seq<char>,
    updates: Map<Seq<Seq<char>>, EntryView>,
)
    ensures
        has_result(project, root, updates) <==> {
            let place = paths::components(paths::below(project.path, root)->0);
            &&& paths::below(project.path, root) is Some
            &&& updates.contains_key(place) ==> version::next_version_text(
                match project.version {
                    Some(v) => v,
                    None => "0.0.0"@,
                },
                updates[place].update_type,
            ) is Some
        },
{
}

} // verus!
