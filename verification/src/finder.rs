//! Finding the Rust projects of a repository.

use crate::ancestors;
use crate::ancestors::{
    holds_member, is_manifest_path, outer_manifest_paths, repository_root, MANIFEST_FILE,
};
use crate::manifest;
use crate::manifest::{
    is_workspace_marker, package_publish_default, package_str, workspace_dep_names,
    workspace_dependency_aliases, workspace_package_publishable_by_default, workspace_package_str,
    workspace_versioned_dependencies, PublishDefault,
};
use crate::package::{PackageView, RustPackage};
use crate::path_map::PathMap;
use crate::paths;
use crate::paths::{components_of, get_relative_path};
use crate::project::{Project, ProjectKind};
use crate::text::{joined_text3, same_text};
use crate::text_map::TextMap;
use crate::text_set;
use crate::text_set::insert_text;
use crate::toml;
use crate::toml::{document_root, item_child, item_has_child, parse_document, TomlNode};
use crate::workspace::{
    InheritedWorkspaceMemberIdentities, MembersView, RustWorkspace, WorkspaceView,
};
use toml_edit::DocumentMut;
use vstd::prelude::*;
use vstd::string::*;

verus! {

/// What came of reading a manifest.
#[derive(Debug)]
pub enum ManifestRead {
    /// There is no such file.
    Missing,
    /// The file could not be read, and why.
    Failed(String),
    /// The content of the file.
    Content(String),
}

/// Whether a manifest does not exist.
pub fn cargo_toml_does_not_exist(read: &ManifestRead) -> (missing: bool)
    ensures
        missing == (*read is Missing),
{
    match read {
        ManifestRead::Missing => true,
        _ => false,
    }
}

/// Why a manifest cannot be used.
#[derive(Debug)]
pub enum FinderError {
    /// The manifest has not been read yet.
    Unread { path: String },
    /// There is no manifest.
    Missing { path: String },
    /// The manifest cannot be read.
    Unreadable { path: String, message: String },
    /// The manifest is not TOML.
    Unparsable { path: String, message: String },
}

impl FinderError {
    /// What to tell the user.
    pub open spec fn text(self) -> Seq<char> {
        match self {
            FinderError::Unread { path } => "Cargo.toml "@ + path@ + " has not been read"@,
            FinderError::Missing { path } => "Failed to read Cargo.toml "@ + path@
                + ": no such file"@,
            FinderError::Unreadable { path, message } => "Failed to read Cargo.toml "@ + path@
                + ": "@ + message@,
            FinderError::Unparsable { path, message } => "Failed to parse Cargo.toml "@ + path@
                + ": "@ + message@,
        }
    }

    /// What to tell the user.
    pub fn message(&self) -> (text: String)
        ensures
            text@ == self.text(),
    {
        match self {
            FinderError::Unread { path } => joined_text3(
                "Cargo.toml ",
                path.as_str(),
                " has not been read",
            ),
            FinderError::Missing { path } => joined_text3(
                "Failed to read Cargo.toml ",
                path.as_str(),
                ": no such file",
            ),
            FinderError::Unreadable { path, message } => {
                let mut text: String = joined_text3(
                    "Failed to read Cargo.toml ",
                    path.as_str(),
                    ": ",
                );
                text.append(message.as_str());
                text
            },
            FinderError::Unparsable { path, message } => {
                let mut text: String = joined_text3(
                    "Failed to parse Cargo.toml ",
                    path.as_str(),
                    ": ",
                );
                text.append(message.as_str());
                text
            },
        }
    }
}

/// What a manifest turned out to be.
pub enum Found {
    Unread,
    Missing,
    Unreadable(Seq<char>),
    Unparsable(Seq<char>),
    Manifest(Map<Seq<Seq<char>>, TomlNode>),
}

/// What the manifest at a place turned out to be.
pub open spec fn found_at(
    reads: Map<Seq<Seq<char>>, ManifestRead>,
    at: Seq<Seq<char>>,
) -> Found {
    if !reads.contains_key(at) {
        Found::Unread
    } else {
        match reads[at] {
            ManifestRead::Missing => Found::Missing,
            ManifestRead::Failed(message) => Found::Unreadable(message@),
            ManifestRead::Content(content) => match toml::parsed_document(content@) {
                Ok(nodes) => Found::Manifest(nodes),
                Err(message) => Found::Unparsable(message),
            },
        }
    }
}

/// The error says why the manifest at a path cannot be used, and names the path
/// as it is written.
pub open spec fn is_fault(error: FinderError, manifest_path: Seq<char>, found: Found) -> bool {
    match error {
        FinderError::Unread { path } => found is Unread && path@ == manifest_path,
        FinderError::Missing { path } => found is Missing && path@ == manifest_path,
        FinderError::Unreadable { path, message } => found == Found::Unreadable(message@) && path@
            == manifest_path,
        FinderError::Unparsable { path, message } => found == Found::Unparsable(message@) && path@
            == manifest_path,
    }
}

/// Reads a manifest that may be missing.
fn read_cargo_toml_if_absent_ok(reads: &PathMap<ManifestRead>, candidate: &str) -> (result: Result<
    Option<DocumentMut>,
    FinderError,
>)
    requires
        reads.well_formed(),
    ensures
        match result {
            Ok(Some(document)) => found_at(reads@, paths::components(candidate@))
                == Found::Manifest(toml::document_nodes(document)),
            Ok(None) => found_at(reads@, paths::components(candidate@)) is Missing,
            Err(error) => error !is Missing && is_fault(
                error,
                candidate@,
                found_at(reads@, paths::components(candidate@)),
            ),
        },
{
    match reads.get(candidate) {
        Some(read) => {
            if cargo_toml_does_not_exist(read) {
                return Ok(None);
            }
            match read {
                ManifestRead::Content(content) => match parse_document(content.as_str()) {
                    Ok(document) => Ok(Some(document)),
                    Err(message) => Err(
                        FinderError::Unparsable { path: candidate.to_string(), message },
                    ),
                },
                ManifestRead::Failed(message) => Err(
                    FinderError::Unreadable {
                        path: candidate.to_string(),
                        message: message.clone(),
                    },
                ),
                ManifestRead::Missing => Ok(None),
            }
        },
        None => Err(FinderError::Unread { path: candidate.to_string() }),
    }
}

/// What the members of a workspace can inherit from its root.
#[derive(Debug)]
pub struct WorkspaceRootInfo {
    pub publishable: bool,
    pub aliases: TextMap,
    pub versioned_dependencies: Vec<String>,
}

/// [`WorkspaceRootInfo`] over mathematical values.
#[verifier::ext_equal]
pub struct RootInfoView {
    pub publishable: bool,
    pub aliases: Map<Seq<char>, Seq<char>>,
    pub versioned_dependencies: Set<Seq<char>>,
}

impl View for WorkspaceRootInfo {
    type V = RootInfoView;

    open spec fn view(&self) -> RootInfoView {
        RootInfoView {
            publishable: self.publishable,
            aliases: self.aliases@,
            versioned_dependencies: text_set::text_set(self.versioned_dependencies@),
        }
    }
}

/// What a workspace root lets its members inherit.
pub open spec fn root_info(nodes: Map<Seq<Seq<char>>, TomlNode>) -> RootInfoView {
    RootInfoView {
        publishable: manifest::workspace_allows_publishing(nodes),
        aliases: manifest::workspace_aliases(nodes),
        versioned_dependencies: manifest::workspace_versioned(nodes),
    }
}

/// What a workspace root lets its members inherit.
fn root_info_of(document: &DocumentMut) -> (info: WorkspaceRootInfo)
    ensures
        info.aliases.well_formed(),
        info@ == root_info(toml::document_nodes(*document)),
{
    WorkspaceRootInfo {
        publishable: workspace_package_publishable_by_default(document),
        aliases: workspace_dependency_aliases(document),
        versioned_dependencies: workspace_versioned_dependencies(document),
    }
}

/// The version that the members of a workspace can inherit, and the root that
/// it comes from.
#[derive(Debug)]
pub struct WorkspaceVersion {
    pub root_path: String,
    pub version: String,
}

/// [`WorkspaceVersion`] over mathematical values.
#[verifier::ext_equal]
pub struct WorkspaceVersionView {
    pub root_path: Seq<char>,
    pub version: Seq<char>,
}

impl View for WorkspaceVersion {
    type V = WorkspaceVersionView;

    open spec fn view(&self) -> WorkspaceVersionView {
        WorkspaceVersionView { root_path: self.root_path@, version: self.version@ }
    }
}

/// A package whose version its workspace will decide.
#[derive(Debug)]
pub struct PendingWorkspacePackage {
    pub name: Option<String>,
    pub path: String,
    pub relative_path: String,
    pub dependencies: Vec<String>,
    pub publishable_by_default: bool,
}

/// [`PendingWorkspacePackage`] over mathematical values.
#[verifier::ext_equal]
pub struct PendingView {
    pub name: Option<Seq<char>>,
    pub path: Seq<char>,
    pub relative_path: Seq<char>,
    pub dependencies: Set<Seq<char>>,
    pub publishable_by_default: bool,
}

impl View for PendingWorkspacePackage {
    type V = PendingView;

    open spec fn view(&self) -> PendingView {
        PendingView {
            name: text_set::optional_view(self.name),
            path: self.path@,
            relative_path: self.relative_path@,
            dependencies: text_set::text_set(self.dependencies@),
            publishable_by_default: self.publishable_by_default,
        }
    }
}

/// The views of a list of pending packages.
pub open spec fn pending_views(pending: Seq<PendingWorkspacePackage>) -> Seq<PendingView> {
    pending.map_values(|p: PendingWorkspacePackage| p@)
}

/// The place is a nearest one that holds the member: no deeper one does.
pub open spec fn is_nearest(
    roots: Set<Seq<Seq<char>>>,
    member: Seq<Seq<char>>,
    at: Seq<Seq<char>>,
) -> bool {
    &&& roots.contains(at)
    &&& ancestors::is_root_of(at, member)
    &&& forall|other: Seq<Seq<char>>| #[trigger]
        roots.contains(other) && ancestors::is_root_of(other, member) ==> other.len() <= at.len()
}

/// The entry of the nearest workspace root that holds the member.
pub fn nearest_workspace_entry<V>(map: &PathMap<V>, member_path: &str) -> (found: Option<usize>)
    requires
        map.well_formed(),
    ensures
        match found {
            Some(i) => i < map.entries@.len() && is_nearest(
                map@.dom(),
                paths::components(member_path@),
                paths::components(map.entries@[i as int].path@),
            ) && map@[paths::components(map.entries@[i as int].path@)]
                == map.entries@[i as int].value,
            None => forall|at: Seq<Seq<char>>| #[trigger]
                map@.contains_key(at) ==> !ancestors::is_root_of(
                    at,
                    paths::components(member_path@),
                ),
        },
{
    let ghost member = paths::components(member_path@);
    let mut best: Option<usize> = None;
    let mut depth: usize = 0;
    let mut i: usize = 0;
    while i < map.entries.len()
        invariant
            i <= map.entries@.len(),
            map.well_formed(),
            member == paths::components(member_path@),
            match best {
                Some(b) => b < i && ancestors::is_root_of(
                    paths::components(map.entries@[b as int].path@),
                    member,
                ) && depth == paths::components(map.entries@[b as int].path@).len(),
                None => true,
            },
            forall|k: int|
                0 <= k < i && ancestors::is_root_of(
                    paths::components((#[trigger] map.entries@[k]).path@),
                    member,
                ) ==> best is Some && paths::components(map.entries@[k].path@).len() <= depth,
        decreases map.entries@.len() - i,
    {
        let root_path: &str = map.entries[i].path.as_str();
        if holds_member(root_path, member_path) {
            let parts: Vec<String> = components_of(root_path);
            proof {
                assert(paths::views(parts@).len() == parts@.len());
            }
            let deeper: bool = match best {
                Some(_) => parts.len() >= depth,
                None => true,
            };
            if deeper {
                best = Some(i);
                depth = parts.len();
            }
        }
        i = i + 1;
    }
    proof {
        assert forall|at: Seq<Seq<char>>| #[trigger]
            map@.dom().contains(at) && ancestors::is_root_of(at, member) implies best is Some
            && at.len() <= depth by {
            let k = map.view_has_entry(at);
            assert(paths::components(map.entries@[k].path@) == at);
        }
        match best {
            Some(b) => {
                map.entry_in_view(b as int);
            },
            None => {},
        }
    }
    best
}

/// The nearest place that holds the member.
pub open spec fn nearest_place(
    roots: Set<Seq<Seq<char>>>,
    member: Seq<Seq<char>>,
) -> Option<Seq<Seq<char>>> {
    if exists|at: Seq<Seq<char>>| #[trigger] is_nearest(roots, member, at) {
        Some(choose|at: Seq<Seq<char>>| #[trigger] is_nearest(roots, member, at))
    } else {
        None
    }
}

/// Every place is that of a manifest.
pub open spec fn are_manifests(places: Set<Seq<Seq<char>>>) -> bool {
    forall|at: Seq<Seq<char>>| #[trigger]
        places.contains(at) ==> ancestors::is_manifest_place(at)
}

/// Among manifests there is at most one nearest.
pub proof fn lemma_nearest_place(
    roots: Set<Seq<Seq<char>>>,
    member: Seq<Seq<char>>,
    at: Seq<Seq<char>>,
)
    requires
        are_manifests(roots),
        is_nearest(roots, member, at),
    ensures
        nearest_place(roots, member) == Some(at),
{
    let other = choose|other: Seq<Seq<char>>| #[trigger] is_nearest(roots, member, other);
    assert(is_nearest(roots, member, other));
    assert(roots.contains(other) && roots.contains(at));
    ancestors::lemma_same_depth(at, other, member);
}

/// A manifest is a root that a search looks for: it has the version that
/// members inherit, or it is any workspace.
pub open spec fn is_wanted(nodes: Map<Seq<Seq<char>>, TomlNode>, wants_version: bool) -> bool {
    if wants_version {
        manifest::workspace_package_text(nodes, "version"@) is Some
    } else {
        toml::has_entry(nodes, "workspace"@)
    }
}

/// What a search upwards came to: the manifests that were rejected, and the
/// root that was found or the path of the manifest that cannot be used.
pub struct Search {
    pub rejected: Set<Seq<Seq<char>>>,
    pub root: Option<(Seq<Seq<char>>, Map<Seq<Seq<char>>, TomlNode>)>,
    pub fault: Option<Seq<char>>,
}

/// A search upwards from the `i`-th manifest on. It ends at a root that is
/// already known, and passes over what was already rejected.
pub open spec fn search(
    known: Set<Seq<Seq<char>>>,
    rejected: Set<Seq<Seq<char>>>,
    reads: Map<Seq<Seq<char>>, ManifestRead>,
    list: Seq<Seq<Seq<char>>>,
    i: int,
    wants_version: bool,
) -> Search
    decreases list.len() - i,
{
    if i < 0 || i >= list.len() || known.contains(list[i]) {
        Search { rejected, root: None, fault: None }
    } else if rejected.contains(list[i]) {
        search(known, rejected, reads, list, i + 1, wants_version)
    } else {
        match found_at(reads, list[i]) {
            Found::Missing => search(
                known,
                rejected.insert(list[i]),
                reads,
                list,
                i + 1,
                wants_version,
            ),
            Found::Manifest(nodes) => if is_wanted(nodes, wants_version) {
                Search { rejected, root: Some((list[i], nodes)), fault: None }
            } else {
                search(known, rejected.insert(list[i]), reads, list, i + 1, wants_version)
            },
            _ => Search { rejected, root: None, fault: Some(paths::rendered(list[i])) },
        }
    }
}

/// A workspace root that was found above a member.
#[derive(Debug)]
pub struct DiscoveredWorkspaceRoot {
    pub root_path: String,
    pub manifest: DocumentMut,
}

/// The root that a search found is at its place, written plainly.
pub open spec fn is_root_found(
    root: Option<DiscoveredWorkspaceRoot>,
    found: Option<(Seq<Seq<char>>, Map<Seq<Seq<char>>, TomlNode>)>,
) -> bool {
    match root {
        Some(r) => match found {
            Some((at, nodes)) => paths::components(r.root_path@) == at && r.root_path@
                == paths::rendered(at) && toml::document_nodes(r.manifest) == nodes,
            None => false,
        },
        None => found is None,
    }
}

/// Searches upwards for a workspace root.
fn search_upwards<V>(
    known: &PathMap<V>,
    also_known: &Vec<String>,
    rejected: Vec<String>,
    reads: &PathMap<ManifestRead>,
    candidates: &Vec<String>,
    Ghost(list): Ghost<Seq<Seq<Seq<char>>>>,
    wants_version: bool,
) -> (result: Result<(Vec<String>, Option<DiscoveredWorkspaceRoot>), FinderError>)
    requires
        known.well_formed(),
        reads.well_formed(),
        candidates@.len() == list.len(),
        forall|j: int|
            0 <= j < list.len() ==> (#[trigger] candidates@[j])@ == paths::rendered(list[j])
                && paths::components(candidates@[j]@) == list[j],
    ensures
        ({
            let outcome = search(
                known@.dom().union(paths::place_set(also_known@)),
                paths::place_set(rejected@),
                reads@,
                list,
                0,
                wants_version,
            );
            match result {
                Ok((all_rejected, root)) => outcome.fault is None && paths::place_set(
                    all_rejected@,
                ) == outcome.rejected && is_root_found(root, outcome.root),
                Err(error) => outcome.fault is Some && is_fault(
                    error,
                    outcome.fault->0,
                    found_at(reads@, paths::components(outcome.fault->0)),
                ),
            }
        }),
{
    let ghost known_set = known@.dom().union(paths::place_set(also_known@));
    let ghost outcome = search(
        known_set,
        paths::place_set(rejected@),
        reads@,
        list,
        0,
        wants_version,
    );
    let mut all_rejected: Vec<String> = rejected;
    let mut i: usize = 0;
    while i < candidates.len()
        invariant
            i <= candidates@.len(),
            known.well_formed(),
            reads.well_formed(),
            candidates@.len() == list.len(),
            forall|j: int|
                0 <= j < list.len() ==> (#[trigger] candidates@[j])@ == paths::rendered(list[j])
                    && paths::components(candidates@[j]@) == list[j],
            known_set == known@.dom().union(paths::place_set(also_known@)),
            outcome == search(
                known_set,
                paths::place_set(rejected@),
                reads@,
                list,
                0,
                wants_version,
            ),
            outcome == search(
                known_set,
                paths::place_set(all_rejected@),
                reads@,
                list,
                i as int,
                wants_version,
            ),
        decreases candidates@.len() - i,
    {
        let candidate: &str = candidates[i].as_str();
        proof {
            assert(paths::components(candidates@[i as int]@) == list[i as int]);
        }
        if known.contains(candidate) || paths::holds_path(also_known, candidate) {
            return Ok((all_rejected, None));
        }
        if !paths::holds_path(&all_rejected, candidate) {
            match read_cargo_toml_if_absent_ok(reads, candidate) {
                Ok(Some(document)) => {
                    let wanted: bool = if wants_version {
                        match workspace_package_str(&document, "version") {
                            Some(_) => true,
                            None => false,
                        }
                    } else {
                        item_has_child(document_root(&document), "workspace")
                    };
                    if wanted {
                        return Ok(
                            (
                                all_rejected,
                                Some(
                                    DiscoveredWorkspaceRoot {
                                        root_path: candidate.to_string(),
                                        manifest: document,
                                    },
                                ),
                            ),
                        );
                    }
                },
                Ok(None) => {},
                Err(error) => {
                    return Err(error);
                },
            }
            let ghost earlier = all_rejected@;
            all_rejected.push(candidate.to_string());
            proof {
                paths::place_set_push(earlier, all_rejected@.last());
                assert(all_rejected@ =~= earlier.push(all_rejected@.last()));
            }
        }
        i = i + 1;
    }
    Ok((all_rejected, None))
}

/// Finds the Rust projects of a repository, manifest by manifest.
#[derive(Debug)]
pub struct RustProjectFinder {
    pub projects: PathMap<Project>,
    pub workspace_package_versions: PathMap<WorkspaceVersion>,
    pub workspace_roots: PathMap<WorkspaceRootInfo>,
    pub non_workspace_manifest_candidates: Vec<String>,
    pub inherited_workspace_members: PathMap<InheritedWorkspaceMemberIdentities>,
    pub pending_workspace_packages: Vec<PendingWorkspacePackage>,
}

/// [`RustProjectFinder`] over mathematical values, by the components of paths.
#[verifier::ext_equal]
pub struct FinderView {
    /// The projects found.
    pub projects: Map<Seq<Seq<char>>, ProjectKind>,
    /// The roots with a version that members can inherit.
    pub versions: Map<Seq<Seq<char>>, WorkspaceVersionView>,
    /// All workspace roots.
    pub roots: Map<Seq<Seq<char>>, RootInfoView>,
    /// The manifests that turned out not to be workspace roots.
    pub rejected: Set<Seq<Seq<char>>>,
    /// The members that inherit the version of a root.
    pub members: Map<Seq<Seq<char>>, MembersView>,
    /// The packages whose version their workspace will decide.
    pub pending: Seq<PendingView>,
}

impl View for RustProjectFinder {
    type V = FinderView;

    open spec fn view(&self) -> FinderView {
        FinderView {
            projects: self.projects@.map_values(|p: Project| p.kind()),
            versions: self.workspace_package_versions@.map_values(|v: WorkspaceVersion| v@),
            roots: self.workspace_roots@.map_values(|r: WorkspaceRootInfo| r@),
            rejected: paths::place_set(self.non_workspace_manifest_candidates@),
            members: self.inherited_workspace_members@.map_values(
                |m: InheritedWorkspaceMemberIdentities| m@,
            ),
            pending: pending_views(self.pending_workspace_packages@),
        }
    }
}

/// The places of the pending packages.
pub open spec fn pending_places(pending: Seq<PendingView>) -> Set<Seq<Seq<char>>> {
    Set::new(
        |at: Seq<Seq<char>>|
            exists|i: int|
                0 <= i < pending.len() && paths::components((#[trigger] pending[i]).path) == at,
    )
}

impl RustProjectFinder {
    /// No path is listed twice in a map, every value is well formed, and roots
    /// are manifests.
    pub open spec fn well_formed(&self) -> bool {
        &&& self.projects.well_formed()
        &&& forall|at: Seq<Seq<char>>| #[trigger]
            self.projects@.contains_key(at) ==> self.projects@[at].well_formed()
        &&& self.workspace_package_versions.well_formed()
        &&& self.workspace_roots.well_formed()
        &&& forall|at: Seq<Seq<char>>| #[trigger]
            self.workspace_roots@.contains_key(at)
                ==> self.workspace_roots@[at].aliases.well_formed()
        &&& self.inherited_workspace_members.well_formed()
        &&& forall|at: Seq<Seq<char>>| #[trigger]
            self.inherited_workspace_members@.contains_key(at)
                ==> self.inherited_workspace_members@[at].well_formed()
        &&& are_manifests(self.workspace_roots@.dom())
        &&& are_manifests(self.workspace_package_versions@.dom())
        &&& forall|at: Seq<Seq<char>>| #[trigger]
            self.workspace_package_versions@.contains_key(at) ==> paths::components(
                self.workspace_package_versions@[at].root_path@,
            ) == at
    }

    /// The names of the files that the finder visits.
    pub fn project_files(&self) -> (files: [&'static str; 1])
        ensures
            files@.len() == 1,
            files@[0]@ == MANIFEST_FILE@,
    {
        [MANIFEST_FILE]
    }

    /// A finder that has found nothing.
    pub fn new() -> (finder: Self)
        ensures
            finder.well_formed(),
            finder@ == (FinderView {
                projects: Map::empty(),
                versions: Map::empty(),
                roots: Map::empty(),
                rejected: Set::empty(),
                members: Map::empty(),
                pending: Seq::empty(),
            }),
    {
        let finder = RustProjectFinder {
            projects: PathMap::new(),
            workspace_package_versions: PathMap::new(),
            workspace_roots: PathMap::new(),
            non_workspace_manifest_candidates: Vec::new(),
            inherited_workspace_members: PathMap::new(),
            pending_workspace_packages: Vec::new(),
        };
        proof {
            assert(finder@.projects =~= Map::empty());
            assert(finder@.versions =~= Map::empty());
            assert(finder@.roots =~= Map::empty());
            assert(finder@.rejected =~= Set::empty());
            assert(finder@.members =~= Map::empty());
            assert(finder@.pending =~= Seq::empty());
        }
        finder
    }
}

/// The name that a dependency goes by once its alias is resolved.
pub open spec fn resolved_name(
    name: Seq<char>,
    aliases: Map<Seq<char>, Seq<char>>,
) -> Seq<char> {
    if aliases.contains_key(name) {
        aliases[name]
    } else {
        name
    }
}

/// The names with their aliases resolved.
pub open spec fn resolved_names(
    names: Set<Seq<char>>,
    aliases: Map<Seq<char>, Seq<char>>,
) -> Set<Seq<char>> {
    Set::new(
        |name: Seq<char>|
            exists|key: Seq<char>| #[trigger]
                names.contains(key) && resolved_name(key, aliases) == name,
    )
}

/// Resolves the aliases among dependency names.
fn resolve_names(names: &Vec<String>, aliases: &TextMap) -> (resolved: Vec<String>)
    requires
        aliases.well_formed(),
    ensures
        text_set::all_different(resolved@),
        text_set::text_set(resolved@) == resolved_names(text_set::text_set(names@), aliases@),
{
    let ghost all = text_set::text_set(names@);
    let mut resolved: Vec<String> = Vec::new();
    let mut i: usize = 0;
    while i < names.len()
        invariant
            i <= names@.len(),
            aliases.well_formed(),
            text_set::all_different(resolved@),
            forall|name: Seq<char>| #[trigger]
                text_set::text_set(resolved@).contains(name) <==> exists|k: int|
                    0 <= k < i && resolved_name((#[trigger] names@[k])@, aliases@) == name,
        decreases names@.len() - i,
    {
        let ghost earlier = text_set::text_set(resolved@);
        let name: &str = names[i].as_str();
        match aliases.get(name) {
            Some(package) => insert_text(&mut resolved, package.as_str()),
            None => insert_text(&mut resolved, name),
        }
        proof {
            let new = resolved_name(names@[i as int]@, aliases@);
            assert(text_set::text_set(resolved@) == earlier.insert(new));
            assert forall|n: Seq<char>| #[trigger]
                text_set::text_set(resolved@).contains(n) <==> exists|k: int|
                    0 <= k < i + 1 && resolved_name((#[trigger] names@[k])@, aliases@) == n by {
                if n == new {
                    assert(resolved_name(names@[i as int]@, aliases@) == n);
                }
                if exists|k: int|
                    0 <= k < i + 1 && resolved_name((#[trigger] names@[k])@, aliases@) == n {
                    let k = choose|k: int|
                        0 <= k < i + 1 && resolved_name((#[trigger] names@[k])@, aliases@) == n;
                    if k < i {
                        assert(earlier.contains(n));
                    }
                }
            }
        }
        i = i + 1;
    }
    proof {
        let wanted = resolved_names(all, aliases@);
        assert forall|n: Seq<char>| text_set::text_set(resolved@).contains(n) == wanted.contains(
            n,
        ) by {
            if text_set::text_set(resolved@).contains(n) {
                let k = choose|k: int|
                    0 <= k < i && resolved_name((#[trigger] names@[k])@, aliases@) == n;
                assert(all.contains(names@[k]@));
            }
            if wanted.contains(n) {
                let key = choose|key: Seq<char>| #[trigger]
                    all.contains(key) && resolved_name(key, aliases@) == n;
                let k = choose|k: int| 0 <= k < names@.len() && (#[trigger] names@[k])@ == key;
                assert(resolved_name(names@[k]@, aliases@) == n);
            }
        }
        assert(text_set::text_set(resolved@) =~= wanted);
    }
    resolved
}

/// What the nearest workspace root above a member lets it inherit.
pub open spec fn nearest_info(
    roots: Map<Seq<Seq<char>>, RootInfoView>,
    member: Seq<Seq<char>>,
) -> Option<RootInfoView> {
    match nearest_place(roots.dom(), member) {
        Some(at) => Some(roots[at]),
        None => None,
    }
}

/// A manifest that needs no visit: it is not one, or it was visited before.
pub open spec fn is_passed_over(finder: FinderView, at: Seq<Seq<char>>) -> bool {
    !ancestors::is_manifest_place(at) || finder.projects.contains_key(at) || pending_places(
        finder.pending,
    ).contains(at)
}

/// The finder with the workspace root that a manifest belongs to: itself, or
/// the nearest one above that is not known yet.
pub open spec fn with_workspace_root(
    finder: FinderView,
    at: Seq<Seq<char>>,
    steps: nat,
    reads: Map<Seq<Seq<char>>, ManifestRead>,
    nodes: Map<Seq<Seq<char>>, TomlNode>,
) -> FinderView {
    if toml::has_entry(nodes, "workspace"@) {
        FinderView { roots: finder.roots.insert(at, root_info(nodes)), ..finder }
    } else {
        let outcome = search(
            finder.roots.dom(),
            finder.rejected,
            reads,
            ancestors::outer_manifests(at, steps),
            0,
            false,
        );
        FinderView {
            rejected: outcome.rejected,
            roots: match outcome.root {
                Some((root, root_nodes)) => finder.roots.insert(root, root_info(root_nodes)),
                None => finder.roots,
            },
            ..finder
        }
    }
}

/// Whether the package of a manifest is publishable by default.
pub open spec fn is_publishable(
    nodes: Map<Seq<Seq<char>>, TomlNode>,
    nearest: Option<RootInfoView>,
) -> bool {
    let answer = if toml::has_entry(nodes, "workspace"@) {
        Some(manifest::workspace_allows_publishing(nodes))
    } else {
        match nearest {
            Some(info) => Some(info.publishable),
            None => None,
        }
    };
    manifest::publish_default(nodes).resolved(answer)
}

/// The packages that a manifest depends on, by their names.
pub open spec fn dependency_names(
    nodes: Map<Seq<Seq<char>>, TomlNode>,
    nearest: Option<RootInfoView>,
) -> Set<Seq<char>> {
    match nearest {
        Some(info) => resolved_names(
            manifest::release_edges(nodes, info.versioned_dependencies),
            info.aliases,
        ),
        None => manifest::release_edges(nodes, Set::empty()),
    }
}

/// One of two texts, the first where there is one.
pub open spec fn either(first: Option<Seq<char>>, second: Option<Seq<char>>) -> Option<Seq<char>> {
    if first is Some {
        first
    } else {
        second
    }
}

/// The members that inherit the version of the root at a place.
pub open spec fn members_at(
    members: Map<Seq<Seq<char>>, MembersView>,
    at: Seq<Seq<char>>,
) -> MembersView {
    if members.contains_key(at) {
        members[at]
    } else {
        MembersView::nobody()
    }
}

/// The finder with the project of a manifest.
pub open spec fn with_manifest(
    finder: FinderView,
    path: Seq<char>,
    relative_path: Seq<char>,
    nodes: Map<Seq<Seq<char>>, TomlNode>,
) -> FinderView {
    let at = paths::components(path);
    let nearest = nearest_info(finder.roots, at);
    let publishable = is_publishable(nodes, nearest);
    let dependencies = dependency_names(nodes, nearest);
    let name = manifest::package_text(nodes, "name"@);
    if toml::has_entry(nodes, "workspace"@) {
        let shared = manifest::workspace_package_text(nodes, "version"@);
        FinderView {
            versions: match shared {
                Some(version) => finder.versions.insert(
                    at,
                    WorkspaceVersionView { root_path: path, version },
                ),
                None => finder.versions,
            },
            members: finder.members.insert(at, members_at(finder.members, at)),
            projects: finder.projects.insert(
                at,
                ProjectKind::Workspace(
                    WorkspaceView {
                        path,
                        relative_path,
                        version: either(manifest::package_text(nodes, "version"@), shared),
                        name,
                        is_changed: false,
                        dependencies,
                        publishable_by_default: name is Some && publishable,
                        inherited_workspace_members: members_at(finder.members, at),
                    },
                ),
            ),
            ..finder
        }
    } else if manifest::is_inherited(manifest::entry2(nodes, "package"@, "version"@)) {
        FinderView {
            pending: finder.pending.push(
                PendingView {
                    name,
                    path,
                    relative_path,
                    dependencies,
                    publishable_by_default: publishable,
                },
            ),
            ..finder
        }
    } else {
        FinderView {
            projects: finder.projects.insert(
                at,
                ProjectKind::Package(
                    PackageView {
                        name,
                        version: manifest::package_text(nodes, "version"@),
                        path,
                        relative_path,
                        is_changed: false,
                        dependencies,
                        publishable_by_default: publishable,
                        workspace_version_inherited: false,
                        workspace_root: None,
                    },
                ),
            ),
            ..finder
        }
    }
}

/// The finder after a visit of a manifest.
pub open spec fn visited(
    finder: FinderView,
    path: Seq<char>,
    relative_path: Seq<char>,
    reads: Map<Seq<Seq<char>>, ManifestRead>,
) -> FinderView {
    let at = paths::components(path);
    if is_passed_over(finder, at) {
        finder
    } else {
        match found_at(reads, at) {
            Found::Manifest(nodes) => with_manifest(
                with_workspace_root(
                    finder,
                    at,
                    paths::components(relative_path).len(),
                    reads,
                    nodes,
                ),
                path,
                relative_path,
                nodes,
            ),
            _ => finder,
        }
    }
}

/// The path of the manifest that keeps a visit from succeeding.
pub open spec fn visit_fault(
    finder: FinderView,
    path: Seq<char>,
    relative_path: Seq<char>,
    reads: Map<Seq<Seq<char>>, ManifestRead>,
) -> Option<Seq<char>> {
    let at = paths::components(path);
    if is_passed_over(finder, at) {
        None
    } else {
        match found_at(reads, at) {
            Found::Manifest(nodes) => if toml::has_entry(nodes, "workspace"@) {
                None
            } else {
                search(
                    finder.roots.dom(),
                    finder.rejected,
                    reads,
                    ancestors::outer_manifests(at, paths::components(relative_path).len()),
                    0,
                    false,
                ).fault
            },
            _ => Some(path),
        }
    }
}

/// The root that a search finds is one of the manifests that it looks at.
proof fn lemma_search_root(
    known: Set<Seq<Seq<char>>>,
    rejected: Set<Seq<Seq<char>>>,
    reads: Map<Seq<Seq<char>>, ManifestRead>,
    list: Seq<Seq<Seq<char>>>,
    i: int,
    wants_version: bool,
)
    requires
        0 <= i,
    ensures
        match search(known, rejected, reads, list, i, wants_version).root {
            Some((at, nodes)) => list.contains(at) && is_wanted(nodes, wants_version) && found_at(
                reads,
                at,
            ) == Found::Manifest(nodes) && !known.contains(at),
            None => true,
        },
    decreases list.len() - i,
{
    if i < list.len() && !known.contains(list[i]) {
        lemma_search_root(known, rejected, reads, list, i + 1, wants_version);
        lemma_search_root(known, rejected.insert(list[i]), reads, list, i + 1, wants_version);
    }
}

impl RustProjectFinder {
    /// Records what a workspace root lets its members inherit.
    fn record_workspace_root(&mut self, root_path: String, document: &DocumentMut)
        requires
            old(self).well_formed(),
            ancestors::is_manifest_place(paths::components(root_path@)),
        ensures
            final(self).well_formed(),
            final(self)@ == (FinderView {
                roots: old(self)@.roots.insert(
                    paths::components(root_path@),
                    root_info(toml::document_nodes(*document)),
                ),
                ..old(self)@
            }),
    {
        let ghost at = paths::components(root_path@);
        let ghost before = self@;
        let info: WorkspaceRootInfo = root_info_of(document);
        let ghost added = info@;
        self.workspace_roots.insert(root_path, info);
        proof {
            assert(self@.roots =~= before.roots.insert(at, added));
        }
    }

    /// Whether a package is pending.
    fn is_pending(&self, path: &str) -> (pending: bool)
        ensures
            pending == pending_places(self@.pending).contains(paths::components(path@)),
    {
        let mut i: usize = 0;
        while i < self.pending_workspace_packages.len()
            invariant
                i <= self.pending_workspace_packages@.len(),
                forall|k: int|
                    0 <= k < i ==> paths::components(
                        (#[trigger] self.pending_workspace_packages@[k]).path@,
                    ) != paths::components(path@),
            decreases self.pending_workspace_packages@.len() - i,
        {
            if paths::same_path(self.pending_workspace_packages[i].path.as_str(), path) {
                proof {
                    assert(paths::components(self@.pending[i as int].path) == paths::components(
                        path@,
                    ));
                }
                return true;
            }
            i = i + 1;
        }
        proof {
            assert forall|k: int| 0 <= k < self@.pending.len() implies paths::components(
                (#[trigger] self@.pending[k]).path,
            ) != paths::components(path@) by {
                assert(paths::components(self.pending_workspace_packages@[k].path@)
                    != paths::components(path@));
            }
        }
        false
    }

    /// Searches upwards for the workspace root of a member, unless one above
    /// it is known, and records it.
    fn discover_workspace_dependency_aliases_for_member(
        &mut self,
        member_path: &str,
        relative_path: &str,
        reads: &PathMap<ManifestRead>,
    ) -> (result: Result<(), FinderError>)
        requires
            old(self).well_formed(),
            reads.well_formed(),
        ensures
            ({
                let outcome = search(
                    old(self)@.roots.dom(),
                    old(self)@.rejected,
                    reads@,
                    ancestors::outer_manifests(
                        paths::components(member_path@),
                        paths::components(relative_path@).len(),
                    ),
                    0,
                    false,
                );
                match result {
                    Ok(_) => outcome.fault is None && final(self).well_formed() && final(self)@ == (
                    FinderView {
                        rejected: outcome.rejected,
                        roots: match outcome.root {
                            Some((root, nodes)) => old(self)@.roots.insert(root, root_info(nodes)),
                            None => old(self)@.roots,
                        },
                        ..old(self)@
                    }),
                    Err(error) => outcome.fault is Some && is_fault(
                        error,
                        outcome.fault->0,
                        found_at(reads@, paths::components(outcome.fault->0)),
                    ) && *final(self) == *old(self),
                }
            }),
    {
        let ghost before = self@;
        let candidates: Vec<String> = outer_manifest_paths(member_path, relative_path);
        let ghost list = ancestors::outer_manifests(
            paths::components(member_path@),
            paths::components(relative_path@).len(),
        );
        let none: Vec<String> = Vec::new();
        let rejected: Vec<String> = paths::copy_texts(&self.non_workspace_manifest_candidates);
        proof {
            assert(self.workspace_roots@.dom().union(paths::place_set(none@))
                =~= before.roots.dom());
            lemma_search_root(before.roots.dom(), before.rejected, reads@, list, 0, false);
        }
        match search_upwards(
            &self.workspace_roots,
            &none,
            rejected,
            reads,
            &candidates,
            Ghost(list),
            false,
        ) {
            Ok((all_rejected, root)) => {
                self.non_workspace_manifest_candidates = all_rejected;
                match root {
                    Some(found) => {
                        proof {
                            let at = paths::components(found.root_path@);
                            assert(list.contains(at));
                            let j = choose|j: int| 0 <= j < list.len() && list[j] == at;
                            assert(list[j].last() == MANIFEST_FILE@);
                        }
                        self.record_workspace_root(found.root_path, &found.manifest);
                    },
                    None => {},
                }
                Ok(())
            },
            Err(error) => Err(error),
        }
    }

    /// What the nearest workspace root above a member lets it inherit.
    fn nearest_workspace_root_info(&self, member_path: &str) -> (info: Option<&WorkspaceRootInfo>)
        requires
            self.well_formed(),
        ensures
            match info {
                Some(i) => nearest_info(self@.roots, paths::components(member_path@)) == Some(i@)
                    && i.aliases.well_formed(),
                None => nearest_info(self@.roots, paths::components(member_path@)) is None,
            },
    {
        let ghost member = paths::components(member_path@);
        proof {
            assert(self@.roots.dom() =~= self.workspace_roots@.dom());
        }
        match nearest_workspace_entry(&self.workspace_roots, member_path) {
            Some(i) => {
                proof {
                    let at = paths::components(self.workspace_roots.entries@[i as int].path@);
                    lemma_nearest_place(self@.roots.dom(), member, at);
                    assert(self.workspace_roots@.contains_key(at));
                }
                Some(&self.workspace_roots.entries[i].value)
            },
            None => None,
        }
    }
}

/// What is optional over mathematical values.
pub open spec fn optional_info(nearest: Option<&WorkspaceRootInfo>) -> Option<RootInfoView> {
    match nearest {
        Some(info) => Some(info@),
        None => None,
    }
}

/// Whether the package of a manifest is publishable by default.
fn publishable_by_default(document: &DocumentMut, nearest: Option<&WorkspaceRootInfo>) -> (
publishable: bool)
    ensures
        publishable == is_publishable(toml::document_nodes(*document), optional_info(nearest)),
{
    let default: PublishDefault = package_publish_default(document);
    if item_has_child(document_root(document), "workspace") {
        default.resolve(Some(workspace_package_publishable_by_default(document)))
    } else {
        match nearest {
            Some(info) => default.resolve(Some(info.publishable)),
            None => default.resolve(None),
        }
    }
}

/// The packages that a manifest depends on, by their names.
fn named_dependencies(document: &DocumentMut, nearest: Option<&WorkspaceRootInfo>) -> (names: Vec<
    String,
>)
    requires
        nearest is Some ==> nearest->0.aliases.well_formed(),
    ensures
        text_set::all_different(names@),
        text_set::text_set(names@) == dependency_names(
            toml::document_nodes(*document),
            optional_info(nearest),
        ),
{
    match nearest {
        Some(info) => {
            let keys: Vec<String> = workspace_dep_names(
                document,
                Some(&info.versioned_dependencies),
            );
            resolve_names(&keys, &info.aliases)
        },
        None => workspace_dep_names(document, None),
    }
}

/// Whether a manifest inherits the version of its package.
fn inherits_version(document: &DocumentMut) -> (inherits: bool)
    ensures
        inherits == manifest::is_inherited(
            manifest::entry2(toml::document_nodes(*document), "package"@, "version"@),
        ),
{
    proof {
        toml::lemma_entry_of_nothing("version"@);
        toml::lemma_entry_of_nothing("workspace"@);
    }
    match item_child(document_root(document), "package") {
        Some(package) => match item_child(package, "version") {
            Some(version) => is_workspace_marker(version),
            None => false,
        },
        None => false,
    }
}

impl RustProjectFinder {
    /// The members that inherit the version of a root, of whom there may be
    /// none yet.
    fn members_of(&mut self, root_path: &str) -> (members: InheritedWorkspaceMemberIdentities)
        requires
            old(self).well_formed(),
        ensures
            final(self).well_formed(),
            members.well_formed(),
            members@ == members_at(old(self)@.members, paths::components(root_path@)),
            final(self)@ == (FinderView {
                members: old(self)@.members.insert(
                    paths::components(root_path@),
                    members_at(old(self)@.members, paths::components(root_path@)),
                ),
                ..old(self)@
            }),
    {
        let ghost at = paths::components(root_path@);
        let ghost before = self@;
        let known: Option<InheritedWorkspaceMemberIdentities> =
            match self.inherited_workspace_members.get(root_path) {
            Some(members) => {
                proof {
                    assert(self.inherited_workspace_members@.contains_key(at));
                }
                Some(members.copy())
            },
            None => None,
        };
        match known {
            Some(members) => {
                proof {
                    assert(before.members[at] == members@);
                    assert(self@.members =~= before.members.insert(at, members@));
                }
                members
            },
            None => {
                self.inherited_workspace_members.insert(
                    root_path.to_string(),
                    InheritedWorkspaceMemberIdentities::new(),
                );
                proof {
                    assert(self@.members =~= before.members.insert(at, MembersView::nobody()));
                }
                InheritedWorkspaceMemberIdentities::new()
            },
        }
    }

    /// Adds a project in place of one at the same path.
    fn add_project(&mut self, path: &str, project: Project)
        requires
            old(self).well_formed(),
            project.well_formed(),
        ensures
            final(self).well_formed(),
            final(self)@ == (FinderView {
                projects: old(self)@.projects.insert(
                    paths::components(path@),
                    project.kind(),
                ),
                ..old(self)@
            }),
    {
        let ghost before = self@;
        let ghost kind = project.kind();
        self.projects.insert(path.to_string(), project);
        proof {
            assert(self@.projects =~= before.projects.insert(paths::components(path@), kind));
        }
    }

    /// Records the version that the members of a workspace can inherit.
    fn record_workspace_version(&mut self, root_path: &str, version: String)
        requires
            old(self).well_formed(),
            ancestors::is_manifest_place(paths::components(root_path@)),
        ensures
            final(self).well_formed(),
            final(self)@ == (FinderView {
                versions: old(self)@.versions.insert(
                    paths::components(root_path@),
                    WorkspaceVersionView { root_path: root_path@, version: version@ },
                ),
                ..old(self)@
            }),
    {
        let ghost before = self@;
        let value = WorkspaceVersion { root_path: root_path.to_string(), version };
        let ghost added = value@;
        self.workspace_package_versions.insert(root_path.to_string(), value);
        proof {
            assert(self@.versions =~= before.versions.insert(
                paths::components(root_path@),
                added,
            ));
        }
    }

    /// Adds the project of a manifest, or defers it until its workspace is
    /// known.
    fn take_manifest(&mut self, path: &str, relative_path: &str, document: &DocumentMut)
        requires
            old(self).well_formed(),
            ancestors::is_manifest_place(paths::components(path@)),
        ensures
            final(self).well_formed(),
            final(self)@ == with_manifest(
                old(self)@,
                path@,
                relative_path@,
                toml::document_nodes(*document),
            ),
    {
        let ghost nodes = toml::document_nodes(*document);
        let ghost at = paths::components(path@);
        let ghost before = self@;
        let nearest: Option<&WorkspaceRootInfo> = self.nearest_workspace_root_info(path);
        let publishable: bool = publishable_by_default(document, nearest);
        let dependencies: Vec<String> = named_dependencies(document, nearest);
        let name: Option<String> = package_str(document, "name");
        if item_has_child(document_root(document), "workspace") {
            let shared: Option<String> = workspace_package_str(document, "version");
            let version: Option<String> = match package_str(document, "version") {
                Some(own) => Some(own),
                None => workspace_package_str(document, "version"),
            };
            match shared {
                Some(version) => self.record_workspace_version(path, version),
                None => {},
            }
            let members: InheritedWorkspaceMemberIdentities = self.members_of(path);
            let mut workspace = RustWorkspace::new_with_inherited_workspace_members(
                name,
                version,
                path.to_string(),
                relative_path.to_string(),
                members,
                publishable,
            );
            workspace.add_dependencies(&dependencies);
            proof {
                assert(workspace@.dependencies =~= text_set::text_set(dependencies@));
            }
            self.add_project(path, Project::Workspace(workspace));
        } else if inherits_version(document) {
            let ghost earlier = self.pending_workspace_packages@;
            let pending = PendingWorkspacePackage {
                name,
                path: path.to_string(),
                relative_path: relative_path.to_string(),
                dependencies,
                publishable_by_default: publishable,
            };
            let ghost added = pending@;
            self.pending_workspace_packages.push(pending);
            proof {
                assert(self@.pending =~= before.pending.push(added));
            }
        } else {
            let mut package = RustPackage::new(
                name,
                package_str(document, "version"),
                path.to_string(),
                relative_path.to_string(),
            ).with_publishable_by_default(publishable);
            package.add_dependencies(&dependencies);
            proof {
                assert(package@.dependencies =~= text_set::text_set(dependencies@));
            }
            self.add_project(path, Project::Package(package));
        }
    }

    /// Visits a manifest: adds its project, and the workspace root above it.
    /// A manifest that a visit needs and that has not been read is named in the
    /// error; the finder is then as it was, and the visit can be repeated.
    pub fn visit(&mut self, path: &str, relative_path: &str, reads: &PathMap<ManifestRead>) -> (result:
        Result<(), FinderError>)
        requires
            old(self).well_formed(),
            reads.well_formed(),
        ensures
            match result {
                Ok(_) => final(self).well_formed() && visit_fault(
                    old(self)@,
                    path@,
                    relative_path@,
                    reads@,
                ) is None && final(self)@ == visited(old(self)@, path@, relative_path@, reads@),
                Err(error) => {
                    let fault = visit_fault(old(self)@, path@, relative_path@, reads@);
                    &&& *final(self) == *old(self)
                    &&& fault is Some
                    &&& is_fault(error, fault->0, found_at(reads@, paths::components(fault->0)))
                },
            },
    {
        let ghost before = self@;
        let ghost at = paths::components(path@);
        proof {
            assert(before.projects.contains_key(at) == self.projects@.contains_key(at));
        }
        if !is_manifest_path(path) || self.projects.contains(path) || self.is_pending(path) {
            return Ok(());
        }
        let document: DocumentMut = match read_cargo_toml_if_absent_ok(reads, path) {
            Ok(Some(document)) => document,
            Ok(None) => {
                return Err(FinderError::Missing { path: path.to_string() });
            },
            Err(error) => {
                return Err(error);
            },
        };
        if item_has_child(document_root(&document), "workspace") {
            self.record_workspace_root(path.to_string(), &document);
        } else {
            match self.discover_workspace_dependency_aliases_for_member(
                path,
                relative_path,
                reads,
            ) {
                Ok(_) => {},
                Err(error) => {
                    return Err(error);
                },
            }
        }
        self.take_manifest(path, relative_path, &document);
        Ok(())
    }
}

/// A workspace root that was found above a pending package.
pub struct FoundRoot {
    pub at: Seq<Seq<char>>,
    pub nodes: Map<Seq<Seq<char>>, TomlNode>,
    pub relative_path: Seq<char>,
}

/// What the searches for the roots of pending packages came to.
pub struct Discovery {
    pub roots: Seq<FoundRoot>,
    pub rejected: Set<Seq<Seq<char>>>,
    pub fault: Option<Seq<char>>,
}

/// The places of the roots.
pub open spec fn root_places(roots: Seq<FoundRoot>) -> Set<Seq<Seq<char>>> {
    Set::new(
        |at: Seq<Seq<char>>| exists|i: int| 0 <= i < roots.len() && (#[trigger] roots[i]).at == at,
    )
}

/// How many components of a pending package's path lead to the root of its
/// repository.
pub open spec fn package_root_length(package: PendingView) -> nat {
    ancestors::root_length(
        paths::components(package.path),
        paths::components(package.relative_path).len(),
    )
}

/// The search for the root of a pending package.
pub open spec fn package_search(
    known: Set<Seq<Seq<char>>>,
    rejected: Set<Seq<Seq<char>>>,
    reads: Map<Seq<Seq<char>>, ManifestRead>,
    package: PendingView,
) -> Search {
    search(
        known,
        rejected,
        reads,
        ancestors::outer_manifests(
            paths::components(package.path),
            paths::components(package.relative_path).len(),
        ),
        0,
        true,
    )
}

/// The searches for the roots of the first `n` pending packages, one after
/// another: what one found or rejected, the next does not look at again.
pub open spec fn discovered(
    known: Set<Seq<Seq<char>>>,
    pending: Seq<PendingView>,
    reads: Map<Seq<Seq<char>>, ManifestRead>,
    n: nat,
) -> Discovery
    decreases n,
{
    if n == 0 {
        Discovery { roots: Seq::empty(), rejected: Set::empty(), fault: None }
    } else {
        let earlier = discovered(known, pending, reads, (n - 1) as nat);
        if earlier.fault is Some {
            earlier
        } else {
            let package = pending[n - 1];
            let outcome = package_search(
                known.union(root_places(earlier.roots)),
                earlier.rejected,
                reads,
                package,
            );
            Discovery {
                roots: match outcome.root {
                    Some((at, nodes)) => earlier.roots.push(
                        FoundRoot {
                            at,
                            nodes,
                            relative_path: paths::rendered(
                                at.skip(package_root_length(package) as int),
                            ),
                        },
                    ),
                    None => earlier.roots,
                },
                rejected: outcome.rejected,
                fault: outcome.fault,
            }
        }
    }
}

/// The finder with a root that was found above a pending package.
pub open spec fn with_found_root(finder: FinderView, root: FoundRoot) -> FinderView {
    let version = manifest::workspace_package_text(root.nodes, "version"@)->0;
    let name = manifest::package_text(root.nodes, "name"@);
    let path = paths::rendered(root.at);
    FinderView {
        versions: finder.versions.insert(
            root.at,
            WorkspaceVersionView { root_path: path, version },
        ),
        roots: finder.roots.insert(root.at, root_info(root.nodes)),
        members: finder.members.insert(root.at, members_at(finder.members, root.at)),
        projects: finder.projects.insert(
            root.at,
            ProjectKind::Workspace(
                WorkspaceView {
                    path,
                    relative_path: root.relative_path,
                    version: either(manifest::package_text(root.nodes, "version"@), Some(version)),
                    name,
                    is_changed: false,
                    dependencies: Set::empty(),
                    publishable_by_default: name is Some && manifest::publish_default(
                        root.nodes,
                    ).resolved(Some(manifest::workspace_allows_publishing(root.nodes))),
                    inherited_workspace_members: members_at(finder.members, root.at),
                },
            ),
        ),
        ..finder
    }
}

/// The finder with the first `n` of the roots that were found.
pub open spec fn with_found_roots(finder: FinderView, roots: Seq<FoundRoot>, n: nat) -> FinderView
    decreases n,
{
    if n == 0 {
        finder
    } else {
        with_found_root(with_found_roots(finder, roots, (n - 1) as nat), roots[n - 1])
    }
}

/// The keys that stand for a package.
pub open spec fn aliases_of(
    aliases: Map<Seq<char>, Seq<char>>,
    name: Seq<char>,
) -> Set<Seq<char>> {
    Set::new(|key: Seq<char>| aliases.contains_key(key) && aliases[key] == name)
}

/// The aliases that a root knows.
pub open spec fn root_aliases(
    roots: Map<Seq<Seq<char>>, RootInfoView>,
    at: Seq<Seq<char>>,
) -> Map<Seq<char>, Seq<char>> {
    if roots.contains_key(at) {
        roots[at].aliases
    } else {
        Map::empty()
    }
}

/// The members of a root with one more.
pub open spec fn with_member(
    members: MembersView,
    name: Seq<char>,
    aliases: Map<Seq<char>, Seq<char>>,
) -> MembersView {
    MembersView {
        package_names: members.package_names.insert(name),
        dependency_aliases: members.dependency_aliases.union(aliases_of(aliases, name)),
    }
}

/// The projects, of which the workspace at a place has other members.
pub open spec fn with_project_members(
    projects: Map<Seq<Seq<char>>, ProjectKind>,
    at: Seq<Seq<char>>,
    members: MembersView,
) -> Map<Seq<Seq<char>>, ProjectKind> {
    if projects.contains_key(at) {
        match projects[at] {
            ProjectKind::Workspace(workspace) => projects.insert(
                at,
                ProjectKind::Workspace(
                    WorkspaceView { inherited_workspace_members: members, ..workspace },
                ),
            ),
            ProjectKind::Package(_) => projects,
        }
    } else {
        projects
    }
}

/// The finder with a pending package as a member of the workspace root at a
/// place, or of none.
pub open spec fn with_workspace_member(
    finder: FinderView,
    package: PendingView,
    root: Option<Seq<Seq<char>>>,
) -> FinderView {
    let aliases = match root {
        Some(at) => root_aliases(finder.roots, at),
        None => Map::empty(),
    };
    let recorded = match (root, package.name) {
        (Some(at), Some(name)) => {
            let members = with_member(members_at(finder.members, at), name, aliases);
            FinderView {
                members: finder.members.insert(at, members),
                projects: with_project_members(finder.projects, at, members),
                ..finder
            }
        },
        _ => finder,
    };
    FinderView {
        projects: recorded.projects.insert(
            paths::components(package.path),
            ProjectKind::Package(
                PackageView {
                    name: package.name,
                    version: match root {
                        Some(at) => Some(finder.versions[at].version),
                        None => None,
                    },
                    path: package.path,
                    relative_path: package.relative_path,
                    is_changed: false,
                    dependencies: resolved_names(package.dependencies, aliases),
                    publishable_by_default: package.publishable_by_default,
                    workspace_version_inherited: true,
                    workspace_root: match root {
                        Some(at) => Some(finder.versions[at].root_path),
                        None => None,
                    },
                },
            ),
        ),
        ..recorded
    }
}

/// The finder with the first `n` pending packages as members of the nearest
/// roots above them.
pub open spec fn with_resolved(finder: FinderView, pending: Seq<PendingView>, n: nat) -> FinderView
    decreases n,
{
    if n == 0 {
        finder
    } else {
        let earlier = with_resolved(finder, pending, (n - 1) as nat);
        let package = pending[n - 1];
        with_workspace_member(
            earlier,
            package,
            nearest_place(earlier.versions.dom(), paths::components(package.path)),
        )
    }
}

/// The finder once every pending package is resolved.
pub open spec fn finalized(
    finder: FinderView,
    reads: Map<Seq<Seq<char>>, ManifestRead>,
) -> FinderView {
    let found = discovered(finder.versions.dom(), finder.pending, reads, finder.pending.len());
    with_resolved(
        with_found_roots(
            FinderView { pending: Seq::empty(), ..finder },
            found.roots,
            found.roots.len(),
        ),
        finder.pending,
        finder.pending.len(),
    )
}

/// A root that was found, with its manifest.
#[derive(Debug)]
pub struct FoundWorkspace {
    pub root_path: String,
    pub manifest: DocumentMut,
    pub relative_path: String,
}

/// The roots in memory are those that were found.
pub open spec fn is_root_list(list: Seq<FoundWorkspace>, roots: Seq<FoundRoot>) -> bool {
    &&& list.len() == roots.len()
    &&& forall|i: int|
        0 <= i < roots.len() ==> {
            let root = #[trigger] roots[i];
            &&& list[i].root_path@ == paths::rendered(root.at)
            &&& paths::components(list[i].root_path@) == root.at
            &&& toml::document_nodes(list[i].manifest) == root.nodes
            &&& list[i].relative_path@ == root.relative_path
            &&& ancestors::is_manifest_place(root.at)
            &&& manifest::workspace_package_text(root.nodes, "version"@) is Some
        }
}

/// A pending package keeps its view when the list is read.
proof fn lemma_pending_view(pending: Seq<PendingWorkspacePackage>, i: int)
    requires
        0 <= i < pending.len(),
    ensures
        pending_views(pending)[i] == pending[i]@,
{
}

impl RustProjectFinder {
    /// Searches for the nearest workspace root with a version above a pending
    /// package, up to the repository. What is known already ends the search, and
    /// what was rejected is not read again.
    fn discover_workspace_root_for_member(
        &self,
        package: &PendingWorkspacePackage,
        found_paths: &Vec<String>,
        rejected: Vec<String>,
        reads: &PathMap<ManifestRead>,
    ) -> (result: Result<(Vec<String>, Option<DiscoveredWorkspaceRoot>), FinderError>)
        requires
            self.well_formed(),
            reads.well_formed(),
        ensures
            ({
                let outcome = package_search(
                    self@.versions.dom().union(paths::place_set(found_paths@)),
                    paths::place_set(rejected@),
                    reads@,
                    package@,
                );
                match result {
                    Ok((all_rejected, root)) => outcome.fault is None && paths::place_set(
                        all_rejected@,
                    ) == outcome.rejected && is_root_found(root, outcome.root),
                    Err(error) => outcome.fault is Some && is_fault(
                        error,
                        outcome.fault->0,
                        found_at(reads@, paths::components(outcome.fault->0)),
                    ),
                }
            }),
    {
        let ghost outer = ancestors::outer_manifests(
            paths::components(package.path@),
            paths::components(package.relative_path@).len(),
        );
        let candidates: Vec<String> = outer_manifest_paths(
            package.path.as_str(),
            package.relative_path.as_str(),
        );
        proof {
            assert(self.workspace_package_versions@.dom() =~= self@.versions.dom());
        }
        search_upwards(
            &self.workspace_package_versions,
            found_paths,
            rejected,
            reads,
            &candidates,
            Ghost(outer),
            true,
        )
    }

    /// Searches for the roots of the pending packages.
    fn discover_workspace_roots(&self, reads: &PathMap<ManifestRead>) -> (result: Result<
        Vec<FoundWorkspace>,
        FinderError,
    >)
        requires
            self.well_formed(),
            reads.well_formed(),
        ensures
            ({
                let found = discovered(
                    self@.versions.dom(),
                    self@.pending,
                    reads@,
                    self@.pending.len(),
                );
                match result {
                    Ok(list) => found.fault is None && is_root_list(list@, found.roots),
                    Err(error) => found.fault is Some && is_fault(
                        error,
                        found.fault->0,
                        found_at(reads@, paths::components(found.fault->0)),
                    ),
                }
            }),
    {
        let ghost known = self@.versions.dom();
        let ghost pending = self@.pending;
        let mut list: Vec<FoundWorkspace> = Vec::new();
        let mut found_paths: Vec<String> = Vec::new();
        let mut rejected: Vec<String> = Vec::new();
        proof {
            assert(paths::place_set(rejected@) =~= Set::empty());
            assert(paths::place_set(found_paths@) =~= root_places(Seq::empty()));
        }
        let mut i: usize = 0;
        while i < self.pending_workspace_packages.len()
            invariant
                i <= self.pending_workspace_packages@.len(),
                self.well_formed(),
                reads.well_formed(),
                known == self@.versions.dom(),
                pending == self@.pending,
                pending.len() == self.pending_workspace_packages@.len(),
                discovered(known, pending, reads@, i as nat).fault is None,
                is_root_list(list@, discovered(known, pending, reads@, i as nat).roots),
                paths::place_set(rejected@) == discovered(
                    known,
                    pending,
                    reads@,
                    i as nat,
                ).rejected,
                paths::place_set(found_paths@) == root_places(
                    discovered(known, pending, reads@, i as nat).roots,
                ),
            decreases self.pending_workspace_packages@.len() - i,
        {
            let package: &PendingWorkspacePackage = &self.pending_workspace_packages[i];
            let ghost earlier = discovered(known, pending, reads@, i as nat);
            let ghost steps = paths::components(package.relative_path@).len();
            let ghost parts = paths::components(package.path@);
            let ghost outer = ancestors::outer_manifests(parts, steps);
            proof {
                lemma_pending_view(self.pending_workspace_packages@, i as int);
                assert(pending[i as int] == package@);
                lemma_search_root(
                    known.union(root_places(earlier.roots)),
                    earlier.rejected,
                    reads@,
                    outer,
                    0,
                    true,
                );
            }
            let ghost outcome = package_search(
                known.union(root_places(earlier.roots)),
                earlier.rejected,
                reads@,
                package@,
            );
            let ghost later = discovered(known, pending, reads@, (i + 1) as nat);
            match self.discover_workspace_root_for_member(package, &found_paths, rejected, reads) {
                Ok((all_rejected, root)) => {
                    rejected = all_rejected;
                    match root {
                        Some(found) => {
                            let git_root: String = repository_root(
                                package.path.as_str(),
                                package.relative_path.as_str(),
                            );
                            let relative_path: String = match get_relative_path(
                                git_root.as_str(),
                                found.root_path.as_str(),
                            ) {
                                Some(relative) => relative,
                                None => MANIFEST_FILE.to_string(),
                            };
                            proof {
                                let at = paths::components(found.root_path@);
                                let j = choose|j: int| 0 <= j < outer.len() && outer[j] == at;
                                ancestors::outer_manifests_stay_inside(parts, steps, j);
                                assert(outer[j].last() == MANIFEST_FILE@);
                                assert(at.take(paths::components(git_root@).len() as int)
                                    == paths::components(git_root@));
                                lemma_root_places_push(
                                    earlier.roots,
                                    later.roots.last(),
                                );
                                paths::place_set_push(found_paths@, found.root_path);
                            }
                            let ghost list_before = list@;
                            found_paths.push(found.root_path.clone());
                            list.push(
                                FoundWorkspace {
                                    root_path: found.root_path,
                                    manifest: found.manifest,
                                    relative_path,
                                },
                            );
                            proof {
                                assert forall|k: int| 0 <= k < later.roots.len() implies {
                                    let root = #[trigger] later.roots[k];
                                    &&& list@[k].root_path@ == paths::rendered(root.at)
                                    &&& paths::components(list@[k].root_path@) == root.at
                                    &&& toml::document_nodes(list@[k].manifest) == root.nodes
                                    &&& list@[k].relative_path@ == root.relative_path
                                    &&& ancestors::is_manifest_place(root.at)
                                    &&& manifest::workspace_package_text(
                                        root.nodes,
                                        "version"@,
                                    ) is Some
                                } by {
                                    if k < earlier.roots.len() {
                                        assert(later.roots[k] == earlier.roots[k]);
                                        assert(list@[k] == list_before[k]);
                                    }
                                }
                            }
                        },
                        None => {},
                    }
                },
                Err(error) => {
                    proof {
                        lemma_fault_stays(known, pending, reads@, (i + 1) as nat, pending.len());
                    }
                    return Err(error);
                },
            }
            i = i + 1;
        }
        Ok(list)
    }
}

/// One more root is at one more place.
pub proof fn lemma_root_places_push(roots: Seq<FoundRoot>, root: FoundRoot)
    ensures
        root_places(roots.push(root)) == root_places(roots).insert(root.at),
{
    let more = roots.push(root);
    assert forall|at: Seq<Seq<char>>| root_places(more).contains(at) == root_places(roots).insert(
        root.at,
    ).contains(at) by {
        if root_places(roots).contains(at) {
            let i = choose|i: int| 0 <= i < roots.len() && (#[trigger] roots[i]).at == at;
            assert(more[i] == roots[i]);
        }
        if root_places(more).contains(at) {
            let i = choose|i: int| 0 <= i < more.len() && (#[trigger] more[i]).at == at;
            if i < roots.len() {
                assert(roots[i] == more[i]);
            }
        }
        assert(more[roots.len() as int] == root);
    }
    assert(root_places(more) =~= root_places(roots).insert(root.at));
}

/// A search that cannot go on stops all later ones.
proof fn lemma_fault_stays(
    known: Set<Seq<Seq<char>>>,
    pending: Seq<PendingView>,
    reads: Map<Seq<Seq<char>>, ManifestRead>,
    n: nat,
    m: nat,
)
    requires
        n <= m,
        discovered(known, pending, reads, n).fault is Some,
    ensures
        discovered(known, pending, reads, m) == discovered(known, pending, reads, n),
    decreases m - n,
{
    if n < m {
        lemma_fault_stays(known, pending, reads, n, (m - 1) as nat);
    }
}

/// The place of the root that a version comes from.
pub open spec fn version_place(root: Option<WorkspaceVersion>) -> Option<Seq<Seq<char>>> {
    match root {
        Some(version) => Some(paths::components(version.root_path@)),
        None => None,
    }
}

/// The keys that stand for a package.
fn keys_of(aliases: &TextMap, name: &str) -> (keys: Vec<String>)
    requires
        aliases.well_formed(),
    ensures
        text_set::text_set(keys@) == aliases_of(aliases@, name@),
{
    let ghost wanted = aliases_of(aliases@, name@);
    let mut keys: Vec<String> = Vec::new();
    let mut i: usize = 0;
    while i < aliases.entries.len()
        invariant
            i <= aliases.entries@.len(),
            aliases.well_formed(),
            forall|key: Seq<char>| #[trigger]
                text_set::text_set(keys@).contains(key) <==> exists|k: int|
                    0 <= k < i && (#[trigger] aliases.entries@[k]).key@ == key
                        && aliases.entries@[k].value@ == name@,
        decreases aliases.entries@.len() - i,
    {
        let ghost earlier = keys@;
        let listed: bool = same_text(aliases.entries[i].value.as_str(), name);
        if listed {
            keys.push(aliases.entries[i].key.clone());
        }
        proof {
            let added = aliases.entries@[i as int].key@;
            assert forall|key: Seq<char>| #[trigger]
                text_set::text_set(keys@).contains(key) <==> exists|k: int|
                    0 <= k < i + 1 && (#[trigger] aliases.entries@[k]).key@ == key
                        && aliases.entries@[k].value@ == name@ by {
                if text_set::text_set(keys@).contains(key) {
                    let n = choose|n: int| 0 <= n < keys@.len() && (#[trigger] keys@[n])@ == key;
                    if n < earlier.len() {
                        assert(earlier[n]@ == key);
                        assert(text_set::text_set(earlier).contains(key));
                    } else {
                        assert(aliases.entries@[i as int].key@ == key);
                    }
                }
                if exists|k: int|
                    0 <= k < i + 1 && (#[trigger] aliases.entries@[k]).key@ == key
                        && aliases.entries@[k].value@ == name@ {
                    let k = choose|k: int|
                        0 <= k < i + 1 && (#[trigger] aliases.entries@[k]).key@ == key
                            && aliases.entries@[k].value@ == name@;
                    if k < i {
                        assert(text_set::text_set(earlier).contains(key));
                        let n = choose|n: int|
                            0 <= n < earlier.len() && (#[trigger] earlier[n])@ == key;
                        assert(keys@[n] == earlier[n]);
                    } else {
                        assert(keys@[earlier.len() as int]@ == key);
                    }
                }
            }
        }
        i = i + 1;
    }
    proof {
        assert forall|key: Seq<char>| text_set::text_set(keys@).contains(key) == wanted.contains(
            key,
        ) by {
            if text_set::text_set(keys@).contains(key) {
                let k = choose|k: int|
                    0 <= k < i && (#[trigger] aliases.entries@[k]).key@ == key
                        && aliases.entries@[k].value@ == name@;
                aliases.entry_in_view(k);
            }
            if wanted.contains(key) {
                let k = aliases.view_has_entry(key);
                assert(aliases.entries@[k].key@ == key);
            }
        }
        assert(text_set::text_set(keys@) =~= wanted);
    }
    keys
}

impl RustProjectFinder {
    /// Adds the project of a workspace root that was found above a pending
    /// package.
    fn add_found_root(&mut self, found: &FoundWorkspace, Ghost(root): Ghost<FoundRoot>)
        requires
            old(self).well_formed(),
            found.root_path@ == paths::rendered(root.at),
            paths::components(found.root_path@) == root.at,
            toml::document_nodes(found.manifest) == root.nodes,
            found.relative_path@ == root.relative_path,
            ancestors::is_manifest_place(root.at),
            manifest::workspace_package_text(root.nodes, "version"@) is Some,
        ensures
            final(self).well_formed(),
            final(self)@ == with_found_root(old(self)@, root),
    {
        let ghost before = self@;
        let shared: String = match workspace_package_str(&found.manifest, "version") {
            Some(version) => version,
            None => String::new(),
        };
        self.record_workspace_version(found.root_path.as_str(), shared.clone());
        self.record_workspace_root(found.root_path.clone(), &found.manifest);
        let name: Option<String> = package_str(&found.manifest, "name");
        let version: Option<String> = match package_str(&found.manifest, "version") {
            Some(own) => Some(own),
            None => Some(shared),
        };
        let publishable: bool = package_publish_default(&found.manifest).resolve(
            Some(workspace_package_publishable_by_default(&found.manifest)),
        );
        let members: InheritedWorkspaceMemberIdentities = self.members_of(
            found.root_path.as_str(),
        );
        let workspace = RustWorkspace::new_with_inherited_workspace_members(
            name,
            version,
            found.root_path.clone(),
            found.relative_path.clone(),
            members,
            publishable,
        );
        self.add_project(found.root_path.as_str(), Project::Workspace(workspace));
    }

    /// Sets the members that the workspace project at a path knows.
    fn set_project_members(&mut self, root_path: &str, members: InheritedWorkspaceMemberIdentities)
        requires
            old(self).well_formed(),
            members.well_formed(),
        ensures
            final(self).well_formed(),
            final(self)@ == (FinderView {
                projects: with_project_members(
                    old(self)@.projects,
                    paths::components(root_path@),
                    members@,
                ),
                ..old(self)@
            }),
    {
        let ghost before = self@;
        let ghost at = paths::components(root_path@);
        let ghost projects = self.projects@;
        proof {
            assert(before.projects.contains_key(at) == projects.contains_key(at));
        }
        match self.projects.remove(root_path) {
            Some(Project::Workspace(workspace)) => {
                let mut workspace: RustWorkspace = workspace;
                let ghost old_view = workspace@;
                workspace.inherited_workspace_members = members;
                proof {
                    assert(projects[at].well_formed());
                    assert(workspace@ == (WorkspaceView {
                        inherited_workspace_members: members@,
                        ..old_view
                    }));
                }
                self.projects.insert(root_path.to_string(), Project::Workspace(workspace));
                proof {
                    assert(self@.projects =~= with_project_members(before.projects, at, members@));
                }
            },
            Some(Project::Package(package)) => {
                proof {
                    assert(projects[at].well_formed());
                }
                self.projects.insert(root_path.to_string(), Project::Package(package));
                proof {
                    assert(self@.projects =~= before.projects);
                }
            },
            None => {
                proof {
                    assert(self@.projects =~= before.projects);
                }
            },
        }
    }

    /// Records a member that inherits the version of a root.
    fn record_member(&mut self, root_path: &str, name: &str, keys: &Vec<String>)
        requires
            old(self).well_formed(),
        ensures
            final(self).well_formed(),
            ({
                let at = paths::components(root_path@);
                let known = members_at(old(self)@.members, at);
                let members = MembersView {
                    package_names: known.package_names.insert(name@),
                    dependency_aliases: known.dependency_aliases.union(
                        text_set::text_set(keys@),
                    ),
                };
                final(self)@ == (FinderView {
                    members: old(self)@.members.insert(at, members),
                    projects: with_project_members(old(self)@.projects, at, members),
                    ..old(self)@
                })
            }),
    {
        let ghost before = self@;
        let ghost at = paths::components(root_path@);
        let mut members: InheritedWorkspaceMemberIdentities = self.members_of(root_path);
        let ghost opened = self@;
        members.record(name, keys);
        let ghost recorded = members@;
        let copy: InheritedWorkspaceMemberIdentities = members.copy();
        self.inherited_workspace_members.insert(root_path.to_string(), members);
        proof {
            assert(self@.members =~= opened.members.insert(at, recorded));
            assert(self@.members =~= before.members.insert(at, recorded));
        }
        self.set_project_members(root_path, copy);
    }

    /// The nearest workspace root above a member that has a version to inherit.
    fn nearest_workspace_package(&self, member_path: &str) -> (found: Option<&WorkspaceVersion>)
        requires
            self.well_formed(),
        ensures
            match found {
                Some(version) => {
                    let at = paths::components(version.root_path@);
                    &&& nearest_place(
                        self@.versions.dom(),
                        paths::components(member_path@),
                    ) == Some(at)
                    &&& self@.versions[at] == version@
                },
                None => nearest_place(
                    self@.versions.dom(),
                    paths::components(member_path@),
                ) is None,
            },
    {
        let ghost member = paths::components(member_path@);
        proof {
            assert(self@.versions.dom() =~= self.workspace_package_versions@.dom());
        }
        match nearest_workspace_entry(&self.workspace_package_versions, member_path) {
            Some(i) => {
                proof {
                    let at = paths::components(
                        self.workspace_package_versions.entries@[i as int].path@,
                    );
                    lemma_nearest_place(self@.versions.dom(), member, at);
                    assert(self.workspace_package_versions@.contains_key(at));
                }
                Some(&self.workspace_package_versions.entries[i].value)
            },
            None => None,
        }
    }

    /// Adds a pending package as a member of the workspace root with the path,
    /// or of none.
    fn insert_workspace_member(
        &mut self,
        package: &PendingWorkspacePackage,
        root: Option<WorkspaceVersion>,
    )
        requires
            old(self).well_formed(),
            root is Some ==> old(self)@.versions[paths::components(root->0.root_path@)]
                == root->0@,
        ensures
            final(self).well_formed(),
            final(self)@ == with_workspace_member(
                old(self)@,
                package@,
                version_place(root),
            ),
    {
        let ghost before = self@;
        let ghost place = version_place(root);
        let ghost aliases = match place {
            Some(at) => root_aliases(before.roots, at),
            None => Map::empty(),
        };
        let mut dependencies: Vec<String> = paths::copy_texts(&package.dependencies);
        let mut keys: Vec<String> = Vec::new();
        proof {
            assert(text_set::text_set(keys@) =~= Set::empty());
            lemma_resolved_by_nothing(package@.dependencies);
        }
        match &root {
            Some(version) => match self.workspace_roots.get(version.root_path.as_str()) {
                Some(info) => {
                    proof {
                        let at = paths::components(version.root_path@);
                        assert(self.workspace_roots@.contains_key(at));
                        assert(before.roots[at] == info@);
                    }
                    match &package.name {
                        Some(name) => {
                            keys = keys_of(&info.aliases, name.as_str());
                        },
                        None => {},
                    }
                    dependencies = resolve_names(&package.dependencies, &info.aliases);
                },
                None => {},
            },
            None => {},
        }
        proof {
            match (place, package@.name) {
                (Some(at), Some(name)) => {
                    assert(text_set::text_set(keys@) =~= aliases_of(aliases, name));
                },
                _ => {},
            }
            assert(text_set::text_set(dependencies@) == resolved_names(
                package@.dependencies,
                aliases,
            ));
        }
        match (&root, &package.name) {
            (Some(version), Some(name)) => {
                self.record_member(version.root_path.as_str(), name.as_str(), &keys);
            },
            _ => {},
        }
        let name: Option<String> = match &package.name {
            Some(name) => Some(name.clone()),
            None => None,
        };
        let (version, root_path): (Option<String>, Option<String>) = match root {
            Some(version) => (Some(version.version), Some(version.root_path)),
            None => (None, None),
        };
        let mut member = RustPackage::new_with_workspace_version(
            name,
            version,
            package.path.clone(),
            package.relative_path.clone(),
            root_path,
        ).with_publishable_by_default(package.publishable_by_default);
        member.add_dependencies(&dependencies);
        proof {
            assert(member@.dependencies =~= text_set::text_set(dependencies@));
        }
        self.add_project(package.path.as_str(), Project::Package(member));
    }

    /// Adds each pending package as a member of the nearest root above it.
    fn resolve_pending_workspace_packages(&mut self, pending: &Vec<PendingWorkspacePackage>)
        requires
            old(self).well_formed(),
        ensures
            final(self).well_formed(),
            final(self)@ == with_resolved(
                old(self)@,
                pending_views(pending@),
                pending@.len(),
            ),
    {
        let mut i: usize = 0;
        while i < pending.len()
            invariant
                i <= pending@.len(),
                self.well_formed(),
                self@ == with_resolved(old(self)@, pending_views(pending@), i as nat),
            decreases pending@.len() - i,
        {
            let package: &PendingWorkspacePackage = &pending[i];
            proof {
                lemma_pending_view(pending@, i as int);
            }
            let root: Option<WorkspaceVersion> =
                match self.nearest_workspace_package(package.path.as_str()) {
                Some(version) => Some(
                    WorkspaceVersion {
                        root_path: version.root_path.clone(),
                        version: version.version.clone(),
                    },
                ),
                None => None,
            };
            self.insert_workspace_member(package, root);
            i = i + 1;
        }
    }

    /// Resolves every pending package. A manifest that is needed and that has
    /// not been read is named in the error; the finder is then as it was.
    pub fn finalize(&mut self, reads: &PathMap<ManifestRead>) -> (result: Result<(), FinderError>)
        requires
            old(self).well_formed(),
            reads.well_formed(),
        ensures
            ({
                let found = discovered(
                    old(self)@.versions.dom(),
                    old(self)@.pending,
                    reads@,
                    old(self)@.pending.len(),
                );
                match result {
                    Ok(_) => final(self).well_formed() && found.fault is None && final(self)@
                        == finalized(old(self)@, reads@),
                    Err(error) => *final(self) == *old(self) && found.fault is Some && is_fault(
                        error,
                        found.fault->0,
                        found_at(reads@, paths::components(found.fault->0)),
                    ),
                }
            }),
    {
        let ghost before = self@;
        let ghost found = discovered(
            before.versions.dom(),
            before.pending,
            reads@,
            before.pending.len(),
        );
        let roots: Vec<FoundWorkspace> = match self.discover_workspace_roots(reads) {
            Ok(roots) => roots,
            Err(error) => {
                return Err(error);
            },
        };
        let mut pending: Vec<PendingWorkspacePackage> = Vec::new();
        std::mem::swap(&mut pending, &mut self.pending_workspace_packages);
        let ghost emptied = FinderView { pending: Seq::empty(), ..before };
        proof {
            assert(self@.pending =~= Seq::empty());
            assert(self@ == emptied);
            assert(pending_views(pending@) == before.pending);
        }
        let mut i: usize = 0;
        while i < roots.len()
            invariant
                i <= roots@.len(),
                is_root_list(roots@, found.roots),
                self.well_formed(),
                self@ == with_found_roots(emptied, found.roots, i as nat),
            decreases roots@.len() - i,
        {
            self.add_found_root(&roots[i], Ghost(found.roots[i as int]));
            i = i + 1;
        }
        self.resolve_pending_workspace_packages(&pending);
        Ok(())
    }
}

/// Without aliases names stay as they are.
proof fn lemma_resolved_by_nothing(names: Set<Seq<char>>)
    ensures
        resolved_names(names, Map::empty()) == names,
{
    let resolved = resolved_names(names, Map::empty());
    assert forall|name: Seq<char>| resolved.contains(name) == names.contains(name) by {
        if names.contains(name) {
            assert(resolved_name(name, Map::empty()) == name);
        }
    }
    assert(resolved =~= names);
}

/// Every workspace project knows the members that inherit its version.
pub open spec fn knows_members(finder: FinderView) -> bool {
    forall|at: Seq<Seq<char>>| #[trigger]
        finder.projects.contains_key(at) ==> match finder.projects[at] {
            ProjectKind::Workspace(workspace) => workspace.inherited_workspace_members
                == members_at(finder.members, at),
            ProjectKind::Package(_) => true,
        }
}

/// A visit leaves every workspace project with the members that inherit its
/// version.
pub proof fn visit_keeps_members_known(
    finder: FinderView,
    path: Seq<char>,
    relative_path: Seq<char>,
    reads: Map<Seq<Seq<char>>, ManifestRead>,
)
    requires
        knows_members(finder),
    ensures
        knows_members(visited(finder, path, relative_path, reads)),
{
    let after = visited(finder, path, relative_path, reads);
    assert forall|at: Seq<Seq<char>>| #[trigger] after.projects.contains_key(at) implies (
    match after.projects[at] {
        ProjectKind::Workspace(workspace) => workspace.inherited_workspace_members == members_at(
            after.members,
            at,
        ),
        ProjectKind::Package(_) => true,
    }) by {
        if at != paths::components(path) {
            assert(finder.projects.contains_key(at));
        }
    }
}

/// A manifest that needs no visit needs none after another visit either, nor
/// does one that was just visited.
pub proof fn visited_manifests_are_passed_over(
    finder: FinderView,
    path: Seq<char>,
    relative_path: Seq<char>,
    reads: Map<Seq<Seq<char>>, ManifestRead>,
    at: Seq<Seq<char>>,
)
    requires
        visit_fault(finder, path, relative_path, reads) is None,
        is_passed_over(finder, at) || at == paths::components(path),
    ensures
        is_passed_over(visited(finder, path, relative_path, reads), at),
{
    let after = visited(finder, path, relative_path, reads);
    let here = paths::components(path);
    if !is_passed_over(finder, here) {
        let nodes = found_at(reads, here)->Manifest_0;
        if pending_places(finder.pending).contains(at) {
            let i = choose|i: int|
                0 <= i < finder.pending.len() && paths::components(
                    (#[trigger] finder.pending[i]).path,
                ) == at;
            assert(after.pending[i] == finder.pending[i]);
        }
        if at == here && !toml::has_entry(nodes, "workspace"@) && manifest::is_inherited(
            manifest::entry2(nodes, "package"@, "version"@),
        ) {
            assert(after.pending[after.pending.len() - 1].path == path);
            assert(pending_places(after.pending).contains(at));
        }
    }
}

/// Visiting a manifest a second time changes nothing.
pub proof fn second_visit_changes_nothing(
    finder: FinderView,
    path: Seq<char>,
    relative_path: Seq<char>,
    reads: Map<Seq<Seq<char>>, ManifestRead>,
    later_reads: Map<Seq<Seq<char>>, ManifestRead>,
)
    requires
        visit_fault(finder, path, relative_path, reads) is None,
    ensures
        visited(
            visited(finder, path, relative_path, reads),
            path,
            relative_path,
            later_reads,
        ) == visited(finder, path, relative_path, reads),
{
    visited_manifests_are_passed_over(
        finder,
        path,
        relative_path,
        reads,
        paths::components(path),
    );
}

/// The second reads hold what the first do, and maybe more.
pub open spec fn extends(
    more: Map<Seq<Seq<char>>, ManifestRead>,
    reads: Map<Seq<Seq<char>>, ManifestRead>,
) -> bool {
    forall|at: Seq<Seq<char>>| #[trigger]
        reads.contains_key(at) ==> more.contains_key(at) && more[at] == reads[at]
}

/// More reads do not change a search that comes to an end.
proof fn lemma_search_with_more(
    known: Set<Seq<Seq<char>>>,
    rejected: Set<Seq<Seq<char>>>,
    reads: Map<Seq<Seq<char>>, ManifestRead>,
    more: Map<Seq<Seq<char>>, ManifestRead>,
    list: Seq<Seq<Seq<char>>>,
    i: int,
    wants_version: bool,
)
    requires
        0 <= i,
        extends(more, reads),
        search(known, rejected, reads, list, i, wants_version).fault is None,
    ensures
        search(known, rejected, more, list, i, wants_version) == search(
            known,
            rejected,
            reads,
            list,
            i,
            wants_version,
        ),
    decreases list.len() - i,
{
    if i < list.len() && !known.contains(list[i]) {
        if rejected.contains(list[i]) {
            lemma_search_with_more(known, rejected, reads, more, list, i + 1, wants_version);
        } else {
            match found_at(reads, list[i]) {
                Found::Missing => {
                    lemma_search_with_more(
                        known,
                        rejected.insert(list[i]),
                        reads,
                        more,
                        list,
                        i + 1,
                        wants_version,
                    );
                },
                Found::Manifest(nodes) => {
                    if !is_wanted(nodes, wants_version) {
                        lemma_search_with_more(
                            known,
                            rejected.insert(list[i]),
                            reads,
                            more,
                            list,
                            i + 1,
                            wants_version,
                        );
                    }
                },
                _ => {},
            }
        }
    }
}

/// More reads do not change a visit that succeeds.
pub proof fn more_reads_keep_a_visit(
    finder: FinderView,
    path: Seq<char>,
    relative_path: Seq<char>,
    reads: Map<Seq<Seq<char>>, ManifestRead>,
    more: Map<Seq<Seq<char>>, ManifestRead>,
)
    requires
        extends(more, reads),
        visit_fault(finder, path, relative_path, reads) is None,
    ensures
        visit_fault(finder, path, relative_path, more) is None,
        visited(finder, path, relative_path, more) == visited(finder, path, relative_path, reads),
{
    let at = paths::components(path);
    if !is_passed_over(finder, at) {
        let nodes = found_at(reads, at)->Manifest_0;
        if !toml::has_entry(nodes, "workspace"@) {
            lemma_search_with_more(
                finder.roots.dom(),
                finder.rejected,
                reads,
                more,
                ancestors::outer_manifests(at, paths::components(relative_path).len()),
                0,
                false,
            );
        }
    }
}

/// A visit keeps the projects that were found before.
pub proof fn visit_keeps_projects(
    finder: FinderView,
    path: Seq<char>,
    relative_path: Seq<char>,
    reads: Map<Seq<Seq<char>>, ManifestRead>,
    at: Seq<Seq<char>>,
)
    requires
        finder.projects.contains_key(at),
    ensures
        visited(finder, path, relative_path, reads).projects.contains_key(at),
        visited(finder, path, relative_path, reads).projects[at] == finder.projects[at],
{
}

/// Adding roots that were found leaves every workspace project with the members
/// that inherit its version, and nothing pending.
proof fn lemma_found_roots(finder: FinderView, roots: Seq<FoundRoot>, n: nat)
    requires
        n <= roots.len(),
        knows_members(finder),
    ensures
        knows_members(with_found_roots(finder, roots, n)),
        with_found_roots(finder, roots, n).pending == finder.pending,
    decreases n,
{
    if n > 0 {
        lemma_found_roots(finder, roots, (n - 1) as nat);
        let earlier = with_found_roots(finder, roots, (n - 1) as nat);
        let after = with_found_roots(finder, roots, n);
        assert forall|at: Seq<Seq<char>>| #[trigger] after.projects.contains_key(at) implies (
        match after.projects[at] {
            ProjectKind::Workspace(workspace) => workspace.inherited_workspace_members
                == members_at(after.members, at),
            ProjectKind::Package(_) => true,
        }) by {
            if at != roots[n - 1].at {
                assert(earlier.projects.contains_key(at));
            }
        }
    }
}

/// Adding a member leaves every workspace project with the members that
/// inherit its version.
proof fn lemma_workspace_member(
    finder: FinderView,
    package: PendingView,
    root: Option<Seq<Seq<char>>>,
)
    requires
        knows_members(finder),
    ensures
        knows_members(with_workspace_member(finder, package, root)),
        with_workspace_member(finder, package, root).pending == finder.pending,
        forall|at: Seq<Seq<char>>| #[trigger]
            finder.projects.contains_key(at) ==> with_workspace_member(
                finder,
                package,
                root,
            ).projects.contains_key(at),
{
    let after = with_workspace_member(finder, package, root);
    assert forall|at: Seq<Seq<char>>| #[trigger] after.projects.contains_key(at) implies (
    match after.projects[at] {
        ProjectKind::Workspace(workspace) => workspace.inherited_workspace_members == members_at(
            after.members,
            at,
        ),
        ProjectKind::Package(_) => true,
    }) by {
        if at != paths::components(package.path) {
            assert(finder.projects.contains_key(at));
        }
    }
}

/// Once the pending packages are resolved, each of them is a package project,
/// and every workspace project knows the members that inherit its version.
proof fn lemma_resolved(finder: FinderView, pending: Seq<PendingView>, n: nat)
    requires
        n <= pending.len(),
        knows_members(finder),
    ensures
        knows_members(with_resolved(finder, pending, n)),
        with_resolved(finder, pending, n).pending == finder.pending,
        forall|i: int|
            0 <= i < n ==> with_resolved(finder, pending, n).projects.contains_key(
                paths::components((#[trigger] pending[i]).path),
            ),
    decreases n,
{
    if n > 0 {
        lemma_resolved(finder, pending, (n - 1) as nat);
        let earlier = with_resolved(finder, pending, (n - 1) as nat);
        let package = pending[n - 1];
        let root = nearest_place(earlier.versions.dom(), paths::components(package.path));
        lemma_workspace_member(earlier, package, root);
        assert forall|i: int| 0 <= i < n implies with_resolved(
            finder,
            pending,
            n,
        ).projects.contains_key(paths::components((#[trigger] pending[i]).path)) by {
            if i < n - 1 {
                assert(earlier.projects.contains_key(paths::components(pending[i].path)));
            }
        }
    }
}

/// Finalizing leaves nothing pending, a project for every package that was
/// pending, and every workspace project with the members that inherit its
/// version.
pub proof fn finalize_resolves_everything(
    finder: FinderView,
    reads: Map<Seq<Seq<char>>, ManifestRead>,
)
    requires
        knows_members(finder),
    ensures
        finalized(finder, reads).pending.len() == 0,
        knows_members(finalized(finder, reads)),
        forall|i: int|
            0 <= i < finder.pending.len() ==> finalized(finder, reads).projects.contains_key(
                paths::components((#[trigger] finder.pending[i]).path),
            ),
{
    let emptied = FinderView { pending: Seq::empty(), ..finder };
    let found = discovered(finder.versions.dom(), finder.pending, reads, finder.pending.len());
    assert(knows_members(emptied)) by {
        assert forall|at: Seq<Seq<char>>| #[trigger] emptied.projects.contains_key(at) implies (
        match emptied.projects[at] {
            ProjectKind::Workspace(workspace) => workspace.inherited_workspace_members
                == members_at(emptied.members, at),
            ProjectKind::Package(_) => true,
        }) by {
            assert(finder.projects.contains_key(at));
        }
    }
    lemma_found_roots(emptied, found.roots, found.roots.len());
    lemma_resolved(
        with_found_roots(emptied, found.roots, found.roots.len()),
        finder.pending,
        finder.pending.len(),
    );
}

} // verus!
