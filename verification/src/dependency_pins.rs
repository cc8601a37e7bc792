//! Requirements of local packages that move with the packages they name.

use crate::assign_preserving_decor;
use crate::assign_preserving_decor::assign_preserving_decor;
use crate::manifest;
use crate::manifest::{cargo_dependency_table, effective_dependency_name};
use crate::text::same_text;
use crate::text_map::TextMap;
use crate::toml;
use crate::toml::{
    document_root, document_root_mut, item_child, item_is_table, item_is_table_like, item_keys,
    item_slot, item_text, TomlNode,
};
use crate::version;
use crate::version::{replace_version_keep_prefix, requirement_needs_rewrite, split_version};
use crate::workspace::{InheritedWorkspaceMemberIdentities, MembersView};
use toml_edit::{DocumentMut, Item};
use vstd::prelude::*;
use vstd::string::*;

verus! {

/// The version requirement of a dependency with a local path.
pub open spec fn local_requirement(
    dependency: Map<Seq<Seq<char>>, TomlNode>,
) -> Option<Seq<char>> {
    if toml::is_table_like(dependency) && manifest::has_local_path(dependency) {
        toml::text_of(toml::entry(dependency, "version"@))
    } else {
        None
    }
}

/// A dependency with another version requirement, whose decor stays.
pub open spec fn with_requirement(
    dependency: Map<Seq<Seq<char>>, TomlNode>,
    requirement: Seq<char>,
) -> Map<Seq<Seq<char>>, TomlNode> {
    toml::with_entry(
        dependency,
        "version"@,
        toml::text_nodes(
            requirement,
            assign_preserving_decor::kept_decor(toml::entry(dependency, "version"@)),
        ),
    )
}

/// Whether `accept` can answer this about a requirement.
pub open spec fn is_verdict(
    accept: impl FnOnce(&str) -> bool,
    requirement: Seq<char>,
    verdict: bool,
) -> bool {
    exists|argument: &str|
        argument@ == requirement && #[trigger] call_ensures(accept, (argument,), verdict)
}

/// Moves the requirement of a local dependency to `next_version`, under its
/// range prefix and with its decor, where `accept` takes the requirement.
/// Whether it did.
pub fn sync_path_dependency_version(
    dependency: &mut Item,
    next_version: &str,
    accept: impl FnOnce(&str) -> bool,
) -> (written: bool)
    requires
        forall|requirement: &str| #[trigger] call_requires(accept, (requirement,)),
    ensures
        match local_requirement(toml::item_nodes(*old(dependency))) {
            Some(requirement) => is_verdict(accept, requirement, written),
            None => !written,
        },
        toml::item_nodes(*final(dependency)) == (if written {
            with_requirement(
                toml::item_nodes(*old(dependency)),
                version::retargeted(
                    local_requirement(toml::item_nodes(*old(dependency)))->0,
                    next_version@,
                ),
            )
        } else {
            toml::item_nodes(*old(dependency))
        }),
{
    let ghost nodes = toml::item_nodes(*dependency);
    if !item_is_table_like(dependency) {
        return false;
    }
    match item_child(dependency, "path") {
        Some(_) => {},
        None => {
            return false;
        },
    }
    let current: String = match item_child(dependency, "version") {
        Some(slot) => match item_text(slot) {
            Some(text) => text.to_string(),
            None => {
                return false;
            },
        },
        None => {
            return false;
        },
    };
    if !accept(current.as_str()) {
        return false;
    }
    let bumped: String = replace_version_keep_prefix(current.as_str(), next_version);
    proof {
        assert(nodes != Map::<Seq<Seq<char>>, TomlNode>::empty());
    }
    let slot: &mut Item = item_slot(dependency, "version");
    assign_preserving_decor(slot, bumped.as_str());
    true
}

/// Which requirements move, and to which version.
#[derive(Debug)]
pub enum PinRule<'a> {
    /// Those that name a package with a new version and do not admit it.
    Uncovered(&'a TextMap),
    /// Those that name a package with a new version.
    Named(&'a TextMap),
    /// Those of members that inherit the version of the workspace, where they
    /// are for its old version.
    Inherited {
        members: &'a InheritedWorkspaceMemberIdentities,
        old_version: &'a str,
        new_version: &'a str,
    },
}

/// [`PinRule`] over mathematical values.
pub enum PinRuleView {
    Uncovered(Map<Seq<char>, Seq<char>>),
    Named(Map<Seq<char>, Seq<char>>),
    Inherited { members: MembersView, old_version: Seq<char>, new_version: Seq<char> },
}

impl<'a> View for PinRule<'a> {
    type V = PinRuleView;

    open spec fn view(&self) -> PinRuleView {
        match self {
            PinRule::Uncovered(versions) => PinRuleView::Uncovered(versions@),
            PinRule::Named(versions) => PinRuleView::Named(versions@),
            PinRule::Inherited { members, old_version, new_version } => PinRuleView::Inherited {
                members: members@,
                old_version: old_version@,
                new_version: new_version@,
            },
        }
    }
}

impl PinRuleView {
    /// The version that a dependency on the package is to move to.
    pub open spec fn target(self, key: Seq<char>, name: Seq<char>) -> Option<Seq<char>> {
        match self {
            PinRuleView::Uncovered(versions) | PinRuleView::Named(versions) => {
                if versions.contains_key(name) {
                    Some(versions[name])
                } else {
                    None
                }
            },
            PinRuleView::Inherited { members, new_version, .. } => {
                if members.covers(key, name) {
                    Some(new_version)
                } else {
                    None
                }
            },
        }
    }

    /// Whether a requirement moves to the version.
    pub open spec fn accepts(self, requirement: Seq<char>, next_version: Seq<char>) -> bool {
        match self {
            PinRuleView::Uncovered(_) => version::needs_rewrite(requirement, next_version),
            PinRuleView::Named(_) => version::retargeted(requirement, next_version) != requirement,
            PinRuleView::Inherited { old_version, .. } => requirement.skip(
                version::prefix_length(requirement),
            ) == old_version,
        }
    }
}

impl<'a> PinRule<'a> {
    /// The versions name each package once.
    pub open spec fn well_formed(&self) -> bool {
        match self {
            PinRule::Uncovered(versions) => versions.well_formed(),
            PinRule::Named(versions) => versions.well_formed(),
            PinRule::Inherited { .. } => true,
        }
    }

    fn target(&self, key: &str, name: &str) -> (version: Option<String>)
        requires
            self.well_formed(),
        ensures
            match version {
                Some(v) => self@.target(key@, name@) == Some(v@),
                None => self@.target(key@, name@) is None,
            },
    {
        match self {
            PinRule::Uncovered(versions) => match versions.get(name) {
                Some(version) => Some(version.clone()),
                None => None,
            },
            PinRule::Named(versions) => match versions.get(name) {
                Some(version) => Some(version.clone()),
                None => None,
            },
            PinRule::Inherited { members, new_version, .. } => if members.contains_dependency(
                key,
                name,
            ) {
                Some((*new_version).to_string())
            } else {
                None
            },
        }
    }

    fn accepts(&self, requirement: &str, next_version: &str) -> (accepted: bool)
        ensures
            accepted == self@.accepts(requirement@, next_version@),
    {
        match self {
            PinRule::Uncovered(_) => requirement_needs_rewrite(requirement, next_version),
            PinRule::Named(_) => !same_text(
                replace_version_keep_prefix(requirement, next_version).as_str(),
                requirement,
            ),
            PinRule::Inherited { old_version, .. } => {
                let (_, tail) = split_version(requirement);
                same_text(tail.as_str(), old_version)
            },
        }
    }
}

/// The requirement of the dependency has to move.
pub open spec fn is_stale(
    key: Seq<char>,
    dependency: Map<Seq<Seq<char>>, TomlNode>,
    rule: PinRuleView,
) -> bool {
    let target = rule.target(key, manifest::dependency_name(key, dependency));
    target is Some && local_requirement(dependency) is Some && rule.accepts(
        local_requirement(dependency)->0,
        target->0,
    )
}

/// A dependency with its requirement moved where it has to.
pub open spec fn pinned_dependency(
    key: Seq<char>,
    dependency: Map<Seq<Seq<char>>, TomlNode>,
    rule: PinRuleView,
) -> Map<Seq<Seq<char>>, TomlNode> {
    if is_stale(key, dependency, rule) {
        with_requirement(
            dependency,
            version::retargeted(
                local_requirement(dependency)->0,
                rule.target(key, manifest::dependency_name(key, dependency))->0,
            ),
        )
    } else {
        dependency
    }
}

/// An item with each entry replaced by what `change` makes of it.
pub open spec fn with_each_entry(
    nodes: Map<Seq<Seq<char>>, TomlNode>,
    change: spec_fn(Seq<char>, Map<Seq<Seq<char>>, TomlNode>) -> Map<Seq<Seq<char>>, TomlNode>,
) -> Map<Seq<Seq<char>>, TomlNode> {
    Map::new(
        |path: Seq<Seq<char>>|
            if path.len() > 0 {
                change(path[0], toml::entry(nodes, path[0])).contains_key(path.drop_first())
            } else {
                nodes.contains_key(path)
            },
        |path: Seq<Seq<char>>|
            if path.len() > 0 {
                change(path[0], toml::entry(nodes, path[0]))[path.drop_first()]
            } else {
                nodes[path]
            },
    )
}

/// An item with the entries under the first `n` keys replaced by what `change`
/// makes of them.
pub open spec fn with_first_entries(
    nodes: Map<Seq<Seq<char>>, TomlNode>,
    keys: Seq<String>,
    n: nat,
    change: spec_fn(Seq<char>, Map<Seq<Seq<char>>, TomlNode>) -> Map<Seq<Seq<char>>, TomlNode>,
) -> Map<Seq<Seq<char>>, TomlNode>
    decreases n,
{
    if n == 0 {
        nodes
    } else {
        let key = keys[n - 1]@;
        toml::with_entry(
            with_first_entries(nodes, keys, (n - 1) as nat, change),
            key,
            change(key, toml::entry(nodes, key)),
        )
    }
}

/// The entries behind the first `n` keys are still as they were.
proof fn lemma_first_entries(
    nodes: Map<Seq<Seq<char>>, TomlNode>,
    keys: Seq<String>,
    n: nat,
    change: spec_fn(Seq<char>, Map<Seq<Seq<char>>, TomlNode>) -> Map<Seq<Seq<char>>, TomlNode>,
    key: Seq<char>,
)
    requires
        n <= keys.len(),
        forall|i: int, j: int|
            0 <= i < j < keys.len() ==> (#[trigger] keys[i])@ != (#[trigger] keys[j])@,
        forall|i: int| 0 <= i < keys.len() ==> toml::lists_key(nodes, (#[trigger] keys[i])@),
    ensures
        (forall|k: int| 0 <= k < n ==> (#[trigger] keys[k])@ != key) ==> toml::entry(
            with_first_entries(nodes, keys, n, change),
            key,
        ) == toml::entry(nodes, key),
        (exists|k: int| 0 <= k < n && (#[trigger] keys[k])@ == key) ==> toml::entry(
            with_first_entries(nodes, keys, n, change),
            key,
        ) == change(key, toml::entry(nodes, key)),
        with_first_entries(nodes, keys, n, change).contains_key(Seq::empty())
            == nodes.contains_key(Seq::empty()),
        nodes.contains_key(Seq::empty()) ==> with_first_entries(
            nodes,
            keys,
            n,
            change,
        )[Seq::empty()] == nodes[Seq::empty()],
    decreases n,
{
    if n > 0 {
        let m = (n - 1) as nat;
        lemma_first_entries(nodes, keys, m, change, key);
        let last = keys[m as int]@;
        let earlier = with_first_entries(nodes, keys, m, change);
        let child = change(last, toml::entry(nodes, last));
        assert(toml::lists_key(nodes, last));
        if last == key {
            toml::lemma_entry_set(earlier, last, child, child);
        } else {
            toml::lemma_other_entry(earlier, last, child, key);
            if exists|k: int| 0 <= k < n && (#[trigger] keys[k])@ == key {
                let k = choose|k: int| 0 <= k < n && (#[trigger] keys[k])@ == key;
                assert(k < m);
            }
        }
    }
}

/// Once all keys are done, each entry is replaced.
proof fn lemma_all_entries(
    nodes: Map<Seq<Seq<char>>, TomlNode>,
    keys: Seq<String>,
    change: spec_fn(Seq<char>, Map<Seq<Seq<char>>, TomlNode>) -> Map<Seq<Seq<char>>, TomlNode>,
)
    requires
        forall|i: int, j: int|
            0 <= i < j < keys.len() ==> (#[trigger] keys[i])@ != (#[trigger] keys[j])@,
        forall|i: int| 0 <= i < keys.len() ==> toml::lists_key(nodes, (#[trigger] keys[i])@),
        forall|key: Seq<char>| #[trigger]
            toml::has_entry(nodes, key) ==> exists|i: int|
                0 <= i < keys.len() && (#[trigger] keys[i])@ == key,
        forall|key: Seq<char>|
            !toml::has_entry(nodes, key) ==> #[trigger] change(key, toml::entry(nodes, key))
                == toml::entry(nodes, key),
    ensures
        with_first_entries(nodes, keys, keys.len(), change) == with_each_entry(nodes, change),
{
    let done = with_first_entries(nodes, keys, keys.len(), change);
    let each = with_each_entry(nodes, change);
    assert forall|path: Seq<Seq<char>>|
        #![trigger done.contains_key(path)]
        done.contains_key(path) == each.contains_key(path) && (each.contains_key(path)
            ==> done[path] == each[path]) by {
        if path.len() == 0 {
            assert(path =~= Seq::empty());
            lemma_first_entries(nodes, keys, keys.len(), change, Seq::empty());
        } else {
            let key = path[0];
            lemma_first_entries(nodes, keys, keys.len(), change, key);
            assert(seq![key] + path.drop_first() =~= path);
            assert(toml::entry(done, key).contains_key(path.drop_first()) == done.contains_key(
                path,
            ));
            if toml::has_entry(nodes, key) {
                let i = choose|i: int| 0 <= i < keys.len() && (#[trigger] keys[i])@ == key;
                assert(keys[i]@ == key);
            } else {
                assert(change(key, toml::entry(nodes, key)) == toml::entry(nodes, key));
            }
        }
    }
    assert(done =~= each);
}

/// A dependency table with each stale requirement moved.
pub open spec fn pinned_table(
    table: Map<Seq<Seq<char>>, TomlNode>,
    rule: PinRuleView,
) -> Map<Seq<Seq<char>>, TomlNode> {
    with_each_entry(
        table,
        |key: Seq<char>, dependency: Map<Seq<Seq<char>>, TomlNode>|
            pinned_dependency(key, dependency, rule),
    )
}

/// The dependency under the key is stale.
pub open spec fn has_stale_key(
    table: Map<Seq<Seq<char>>, TomlNode>,
    rule: PinRuleView,
    key: Seq<char>,
) -> bool {
    toml::has_entry(table, key) && is_stale(key, toml::entry(table, key), rule)
}

/// Some dependency of the table is stale.
pub open spec fn is_stale_table(
    table: Map<Seq<Seq<char>>, TomlNode>,
    rule: PinRuleView,
) -> bool {
    exists|key: Seq<char>| #[trigger] has_stale_key(table, rule, key)
}

/// Moves the stale requirements of one dependency table. Whether there were
/// any.
pub(crate) fn sync_dependency_table_pins(table: &mut Item, rule: &PinRule) -> (written: bool)
    requires
        toml::is_table_like(toml::item_nodes(*old(table))),
        rule.well_formed(),
    ensures
        toml::item_nodes(*final(table)) == pinned_table(toml::item_nodes(*old(table)), rule@),
        written == is_stale_table(toml::item_nodes(*old(table)), rule@),
{
    let ghost nodes = toml::item_nodes(*table);
    let ghost change = |key: Seq<char>, dependency: Map<Seq<Seq<char>>, TomlNode>|
        pinned_dependency(key, dependency, rule@);
    let keys: Vec<String> = item_keys(table);
    let mut written: bool = false;
    let mut i: usize = 0;
    while i < keys.len()
        invariant
            i <= keys@.len(),
            toml::is_table_like(nodes),
            rule.well_formed(),
            change == (|key: Seq<char>, dependency: Map<Seq<Seq<char>>, TomlNode>|
                pinned_dependency(key, dependency, rule@)),
            forall|a: int, b: int|
                0 <= a < b < keys@.len() ==> (#[trigger] keys@[a])@ != (#[trigger] keys@[b])@,
            forall|a: int|
                0 <= a < keys@.len() ==> toml::lists_key(nodes, (#[trigger] keys@[a])@),
            toml::item_nodes(*table) == with_first_entries(nodes, keys@, i as nat, change),
            written == exists|k: int|
                0 <= k < i && has_stale_key(nodes, rule@, (#[trigger] keys@[k])@),
        decreases keys@.len() - i,
    {
        let key: &str = keys[i].as_str();
        let ghost earlier = toml::item_nodes(*table);
        proof {
            lemma_first_entries(nodes, keys@, i as nat, change, key@);
            assert forall|k: int| 0 <= k < i implies (#[trigger] keys@[k])@ != key@ by {}
            assert(toml::entry(earlier, key@) == toml::entry(nodes, key@));
            assert(toml::lists_key(nodes, keys@[i as int]@));
            toml::lemma_entry_set(earlier, key@, toml::entry(earlier, key@), Map::empty());
        }
        let target: Option<String> = match item_child(table, key) {
            Some(dependency) => {
                let name: String = effective_dependency_name(key, dependency);
                rule.target(key, name.as_str())
            },
            None => None,
        };
        match target {
            Some(version) => {
                let next_version: &str = version.as_str();
                let accept = |current: &str| -> (needed: bool)
                    ensures
                        needed == rule@.accepts(current@, next_version@),
                {
                    rule.accepts(current, next_version)
                };
                let slot: &mut Item = item_slot(table, key);
                let moved: bool = sync_path_dependency_version(slot, next_version, accept);
                if moved {
                    written = true;
                }
                proof {
                    assert(moved == is_stale(key@, toml::entry(nodes, key@), rule@));
                    assert(moved == has_stale_key(nodes, rule@, keys@[i as int]@));
                }
            },
            None => {
                proof {
                    assert(!has_stale_key(nodes, rule@, keys@[i as int]@));
                    assert(!is_stale(key@, toml::entry(nodes, key@), rule@));
                }
            },
        }
        i = i + 1;
    }
    proof {
        assert forall|key: Seq<char>|
            !toml::has_entry(nodes, key) implies #[trigger] change(key, toml::entry(nodes, key))
            == toml::entry(nodes, key) by {}
        lemma_all_entries(nodes, keys@, change);
        if is_stale_table(nodes, rule@) {
            let key = choose|key: Seq<char>| #[trigger] has_stale_key(nodes, rule@, key);
            assert(toml::has_entry(nodes, key));
            let k = choose|k: int| 0 <= k < keys@.len() && (#[trigger] keys@[k])@ == key;
            assert(has_stale_key(nodes, rule@, keys@[k]@));
        }
    }
    written
}

/// An item with the stale requirements of its first dependency tables moved.
pub open spec fn pinned_tables(
    nodes: Map<Seq<Seq<char>>, TomlNode>,
    rule: PinRuleView,
    tables: nat,
) -> Map<Seq<Seq<char>>, TomlNode>
    decreases tables,
{
    if tables == 0 {
        nodes
    } else {
        let earlier = pinned_tables(nodes, rule, (tables - 1) as nat);
        let name = manifest::dependency_table(tables - 1).0;
        if toml::is_table_like(toml::entry(nodes, name)) {
            toml::with_entry(earlier, name, pinned_table(toml::entry(nodes, name), rule))
        } else {
            earlier
        }
    }
}

/// One of the first dependency tables is stale.
pub open spec fn has_stale_table(
    nodes: Map<Seq<Seq<char>>, TomlNode>,
    rule: PinRuleView,
    tables: nat,
) -> bool
    decreases tables,
{
    if tables == 0 {
        false
    } else {
        let table = toml::entry(nodes, manifest::dependency_table(tables - 1).0);
        has_stale_table(nodes, rule, (tables - 1) as nat) || (toml::is_table_like(table)
            && is_stale_table(table, rule))
    }
}

/// The names of the dependency tables differ.
pub proof fn lemma_table_names()
    ensures
        forall|t: int, u: int|
            0 <= t < u < 3 ==> (#[trigger] manifest::dependency_table(t)).0 != (
            #[trigger] manifest::dependency_table(u)).0,
        forall|t: int|
            0 <= t < 3 ==> (#[trigger] manifest::dependency_table(t)).0 != "target"@
                && manifest::dependency_table(t).0 != "workspace"@,
        "target"@ != "workspace"@,
{
    reveal_strlit("dependencies");
    reveal_strlit("dev-dependencies");
    reveal_strlit("build-dependencies");
    reveal_strlit("target");
    reveal_strlit("workspace");
    assert("dependencies"@.len() == 12);
    assert("dev-dependencies"@.len() == 16);
    assert("build-dependencies"@.len() == 18);
    assert("target"@.len() == 6);
    assert("workspace"@.len() == 9);
}

/// Moving requirements in the first tables leaves every other entry alone.
pub proof fn lemma_pinned_tables_frame(
    nodes: Map<Seq<Seq<char>>, TomlNode>,
    rule: PinRuleView,
    tables: nat,
    key: Seq<char>,
)
    requires
        tables <= 3,
        forall|t: int| 0 <= t < tables ==> (#[trigger] manifest::dependency_table(t)).0 != key,
    ensures
        toml::entry(pinned_tables(nodes, rule, tables), key) == toml::entry(nodes, key),
        toml::is_table_like(pinned_tables(nodes, rule, tables)) == toml::is_table_like(nodes),
        toml::is_table(pinned_tables(nodes, rule, tables)) == toml::is_table(nodes),
    decreases tables,
{
    if tables > 0 {
        let t = tables - 1;
        let name = manifest::dependency_table(t).0;
        lemma_pinned_tables_frame(nodes, rule, t as nat, key);
        toml::lemma_other_entry(
            pinned_tables(nodes, rule, t as nat),
            name,
            pinned_table(toml::entry(nodes, name), rule),
            key,
        );
    }
}

/// Moves the stale requirements of the dependency tables of an item. Whether
/// there were any.
fn sync_dependency_tables_pins(item: &mut Item, rule: &PinRule) -> (written: bool)
    requires
        toml::is_table_like(toml::item_nodes(*old(item))),
        rule.well_formed(),
    ensures
        toml::item_nodes(*final(item)) == pinned_tables(
            toml::item_nodes(*old(item)),
            rule@,
            3,
        ),
        written == has_stale_table(toml::item_nodes(*old(item)), rule@, 3),
{
    let ghost nodes = toml::item_nodes(*item);
    let mut written: bool = false;
    let mut t: usize = 0;
    while t < 3
        invariant
            t <= 3,
            toml::is_table_like(nodes),
            rule.well_formed(),
            toml::item_nodes(*item) == pinned_tables(nodes, rule@, t as nat),
            written == has_stale_table(nodes, rule@, t as nat),
        decreases 3 - t,
    {
        let (name, _) = cargo_dependency_table(t);
        proof {
            lemma_table_names();
            assert forall|u: int| 0 <= u < t implies (#[trigger] manifest::dependency_table(u)).0
                != name@ by {
                assert(manifest::dependency_table(t as int).0 == name@);
            }
            lemma_pinned_tables_frame(nodes, rule@, t as nat, name@);
        }
        let present: bool = match item_child(item, name) {
            Some(table) => item_is_table_like(table),
            None => false,
        };
        if present {
            let table: &mut Item = item_slot(item, name);
            if sync_dependency_table_pins(table, rule) {
                written = true;
            }
        }
        t = t + 1;
    }
    written
}

/// A target with the stale requirements of its dependency tables moved.
pub open spec fn pinned_target(
    target: Map<Seq<Seq<char>>, TomlNode>,
    rule: PinRuleView,
) -> Map<Seq<Seq<char>>, TomlNode> {
    if toml::is_table_like(target) {
        pinned_tables(target, rule, 3)
    } else {
        target
    }
}

/// The target under the key has a stale dependency.
pub open spec fn is_stale_target(
    targets: Map<Seq<Seq<char>>, TomlNode>,
    rule: PinRuleView,
    key: Seq<char>,
) -> bool {
    toml::has_entry(targets, key) && toml::is_table_like(toml::entry(targets, key))
        && has_stale_table(toml::entry(targets, key), rule, 3)
}

/// The `target` table with the stale requirements of each target moved.
pub open spec fn pinned_targets(
    targets: Map<Seq<Seq<char>>, TomlNode>,
    rule: PinRuleView,
) -> Map<Seq<Seq<char>>, TomlNode> {
    with_each_entry(
        targets,
        |key: Seq<char>, target: Map<Seq<Seq<char>>, TomlNode>| pinned_target(target, rule),
    )
}

/// Moves the stale requirements of each target. Whether there were any.
fn sync_target_pins(targets: &mut Item, rule: &PinRule) -> (written: bool)
    requires
        toml::is_table_like(toml::item_nodes(*old(targets))),
        rule.well_formed(),
    ensures
        toml::item_nodes(*final(targets)) == pinned_targets(
            toml::item_nodes(*old(targets)),
            rule@,
        ),
        written == exists|key: Seq<char>| #[trigger]
            is_stale_target(toml::item_nodes(*old(targets)), rule@, key),
{
    let ghost nodes = toml::item_nodes(*targets);
    let ghost change = |key: Seq<char>, target: Map<Seq<Seq<char>>, TomlNode>|
        pinned_target(target, rule@);
    let keys: Vec<String> = item_keys(targets);
    let mut written: bool = false;
    let mut i: usize = 0;
    while i < keys.len()
        invariant
            i <= keys@.len(),
            toml::is_table_like(nodes),
            rule.well_formed(),
            change == (|key: Seq<char>, target: Map<Seq<Seq<char>>, TomlNode>|
                pinned_target(target, rule@)),
            forall|a: int, b: int|
                0 <= a < b < keys@.len() ==> (#[trigger] keys@[a])@ != (#[trigger] keys@[b])@,
            forall|a: int|
                0 <= a < keys@.len() ==> toml::lists_key(nodes, (#[trigger] keys@[a])@),
            toml::item_nodes(*targets) == with_first_entries(nodes, keys@, i as nat, change),
            written == exists|k: int|
                0 <= k < i && is_stale_target(nodes, rule@, (#[trigger] keys@[k])@),
        decreases keys@.len() - i,
    {
        let key: &str = keys[i].as_str();
        let ghost earlier = toml::item_nodes(*targets);
        proof {
            lemma_first_entries(nodes, keys@, i as nat, change, key@);
            assert forall|k: int| 0 <= k < i implies (#[trigger] keys@[k])@ != key@ by {}
            assert(toml::entry(earlier, key@) == toml::entry(nodes, key@));
            assert(toml::lists_key(nodes, keys@[i as int]@));
            toml::lemma_entry_set(earlier, key@, toml::entry(earlier, key@), Map::empty());
        }
        let present: bool = match item_child(targets, key) {
            Some(target) => item_is_table_like(target),
            None => false,
        };
        if present {
            let target: &mut Item = item_slot(targets, key);
            let moved: bool = sync_dependency_tables_pins(target, rule);
            if moved {
                written = true;
            }
            proof {
                assert(moved == is_stale_target(nodes, rule@, keys@[i as int]@));
            }
        } else {
            proof {
                assert(!is_stale_target(nodes, rule@, keys@[i as int]@));
            }
        }
        i = i + 1;
    }
    proof {
        assert forall|key: Seq<char>|
            !toml::has_entry(nodes, key) implies #[trigger] change(key, toml::entry(nodes, key))
            == toml::entry(nodes, key) by {}
        lemma_all_entries(nodes, keys@, change);
        if exists|key: Seq<char>| #[trigger] is_stale_target(nodes, rule@, key) {
            let key = choose|key: Seq<char>| #[trigger] is_stale_target(nodes, rule@, key);
            assert(toml::has_entry(nodes, key));
            let k = choose|k: int| 0 <= k < keys@.len() && (#[trigger] keys@[k])@ == key;
            assert(is_stale_target(nodes, rule@, keys@[k]@));
        }
    }
    written
}

/// A document with `[workspace.dependencies]` replaced by what `pinned` is, or
/// as it is where that is not a table under a header.
pub open spec fn with_workspace_dependencies(
    nodes: Map<Seq<Seq<char>>, TomlNode>,
    dependencies: Map<Seq<Seq<char>>, TomlNode>,
) -> Map<Seq<Seq<char>>, TomlNode> {
    toml::with_entry(
        nodes,
        "workspace"@,
        toml::with_entry(toml::entry(nodes, "workspace"@), "dependencies"@, dependencies),
    )
}

/// A document with the stale requirements of `[workspace.dependencies]` moved.
pub open spec fn pinned_workspace(
    nodes: Map<Seq<Seq<char>>, TomlNode>,
    rule: PinRuleView,
) -> Map<Seq<Seq<char>>, TomlNode> {
    let dependencies = manifest::workspace_dependencies(nodes);
    if toml::is_table(dependencies) {
        with_workspace_dependencies(nodes, pinned_table(dependencies, rule))
    } else {
        nodes
    }
}

/// A document with its stale requirements moved: in `[workspace.dependencies]`,
/// in its dependency tables, and in those of its targets.
pub open spec fn pinned_document(
    nodes: Map<Seq<Seq<char>>, TomlNode>,
    rule: PinRuleView,
) -> Map<Seq<Seq<char>>, TomlNode> {
    let own = pinned_tables(pinned_workspace(nodes, rule), rule, 3);
    let targets = toml::entry(nodes, "target"@);
    if toml::is_table_like(targets) {
        toml::with_entry(own, "target"@, pinned_targets(targets, rule))
    } else {
        own
    }
}

/// Some requirement of the document has to move.
pub open spec fn is_stale_document(
    nodes: Map<Seq<Seq<char>>, TomlNode>,
    rule: PinRuleView,
) -> bool {
    ||| toml::is_table(manifest::workspace_dependencies(nodes)) && is_stale_table(
        manifest::workspace_dependencies(nodes),
        rule,
    )
    ||| has_stale_table(nodes, rule, 3)
    ||| toml::is_table_like(toml::entry(nodes, "target"@)) && exists|key: Seq<char>| #[trigger]
        is_stale_target(toml::entry(nodes, "target"@), rule, key)
}

/// Whether `[workspace.dependencies]` is a table under a header.
pub(crate) fn has_workspace_dependencies_table(document: &DocumentMut) -> (present: bool)
    ensures
        present ==> toml::is_table_like(toml::document_nodes(*document)) && toml::is_table_like(
            toml::entry(toml::document_nodes(*document), "workspace"@),
        ),
        present == toml::is_table(
            manifest::workspace_dependencies(toml::document_nodes(*document)),
        ),
{
    match item_child(document_root(document), "workspace") {
        Some(workspace) => match item_child(workspace, "dependencies") {
            Some(dependencies) => item_is_table(dependencies),
            None => false,
        },
        None => {
            proof {
                toml::lemma_entry_of_nothing("dependencies"@);
            }
            false
        },
    }
}

/// `[workspace.dependencies]`, to be changed.
pub(crate) fn workspace_dependencies_table_mut(document: &mut DocumentMut) -> (table: &mut Item)
    requires
        toml::is_table_like(toml::document_nodes(*old(document))),
        toml::is_table_like(toml::entry(toml::document_nodes(*old(document)), "workspace"@)),
    ensures
        toml::item_nodes(*table) == manifest::workspace_dependencies(
            toml::document_nodes(*old(document)),
        ),
        toml::document_nodes(*final(document)) == with_workspace_dependencies(
            toml::document_nodes(*old(document)),
            toml::item_nodes(*final(table)),
        ),
        toml::document_trailing(*final(document)) == toml::document_trailing(*old(document)),
{
    item_slot(item_slot(document_root_mut(document), "workspace"), "dependencies")
}

/// Moves the requirements of local dependencies that name a bumped package and
/// do not admit its new version. Whether there were any.
pub fn sync_dependency_pins(document: &mut DocumentMut, package_versions: &TextMap) -> (written:
    bool)
    requires
        toml::is_table(toml::document_nodes(*old(document))),
        package_versions.well_formed(),
    ensures
        toml::document_nodes(*final(document)) == pinned_document(
            toml::document_nodes(*old(document)),
            PinRuleView::Uncovered(package_versions@),
        ),
        toml::is_table(toml::document_nodes(*final(document))),
        toml::document_trailing(*final(document)) == toml::document_trailing(*old(document)),
        written == is_stale_document(
            toml::document_nodes(*old(document)),
            PinRuleView::Uncovered(package_versions@),
        ),
{
    let pin_rule = PinRule::Uncovered(package_versions);
    let rule: &PinRule = &pin_rule;
    let ghost nodes = toml::document_nodes(*document);
    let mut written: bool = false;
    if has_workspace_dependencies_table(document) {
        let dependencies: &mut Item = workspace_dependencies_table_mut(document);
        if sync_dependency_table_pins(dependencies, rule) {
            written = true;
        }
    }
    let ghost inherited = toml::document_nodes(*document);
    proof {
        assert(inherited == pinned_workspace(nodes, rule@));
        lemma_table_names();
        lemma_workspace_frame(nodes, rule@, "target"@);
        lemma_workspace_tables(nodes, rule@, 3);
        lemma_pinned_tables_frame(inherited, rule@, 3, "target"@);
    }
    let root: &mut Item = document_root_mut(document);
    if sync_dependency_tables_pins(root, rule) {
        written = true;
    }
    let present: bool = match item_child(root, "target") {
        Some(targets) => item_is_table_like(targets),
        None => false,
    };
    if present {
        let targets: &mut Item = item_slot(root, "target");
        if sync_target_pins(targets, rule) {
            written = true;
        }
    }
    written
}

/// Moving the requirements in `[workspace.dependencies]` leaves every other
/// entry of the document alone.
pub proof fn lemma_workspace_frame(
    nodes: Map<Seq<Seq<char>>, TomlNode>,
    rule: PinRuleView,
    key: Seq<char>,
)
    requires
        key != "workspace"@,
    ensures
        toml::entry(pinned_workspace(nodes, rule), key) == toml::entry(nodes, key),
        toml::is_table_like(pinned_workspace(nodes, rule)) == toml::is_table_like(nodes),
        toml::is_table(pinned_workspace(nodes, rule)) == toml::is_table(nodes),
{
    let dependencies = manifest::workspace_dependencies(nodes);
    let workspace = toml::with_entry(
        toml::entry(nodes, "workspace"@),
        "dependencies"@,
        pinned_table(dependencies, rule),
    );
    toml::lemma_other_entry(nodes, "workspace"@, workspace, key);
}

/// The other tables are as stale as before.
proof fn lemma_workspace_tables(
    nodes: Map<Seq<Seq<char>>, TomlNode>,
    rule: PinRuleView,
    tables: nat,
)
    requires
        tables <= 3,
    ensures
        has_stale_table(pinned_workspace(nodes, rule), rule, tables) == has_stale_table(
            nodes,
            rule,
            tables,
        ),
    decreases tables,
{
    if tables > 0 {
        lemma_table_names();
        lemma_workspace_tables(nodes, rule, (tables - 1) as nat);
        lemma_workspace_frame(nodes, rule, manifest::dependency_table(tables - 1).0);
    }
}

/// Where each entry stays as it is, so does the item.
proof fn lemma_each_entry_same(
    nodes: Map<Seq<Seq<char>>, TomlNode>,
    change: spec_fn(Seq<char>, Map<Seq<Seq<char>>, TomlNode>) -> Map<Seq<Seq<char>>, TomlNode>,
)
    requires
        forall|key: Seq<char>| #[trigger]
            change(key, toml::entry(nodes, key)) == toml::entry(nodes, key),
    ensures
        with_each_entry(nodes, change) == nodes,
{
    let each = with_each_entry(nodes, change);
    assert forall|path: Seq<Seq<char>>|
        #![trigger each.contains_key(path)]
        each.contains_key(path) == nodes.contains_key(path) && (nodes.contains_key(path)
            ==> each[path] == nodes[path]) by {
        if path.len() > 0 {
            let key = path[0];
            assert(change(key, toml::entry(nodes, key)) == toml::entry(nodes, key));
            assert(seq![key] + path.drop_first() =~= path);
        }
    }
    assert(each =~= nodes);
}

/// Each entry of an item with each entry replaced is what it was replaced by.
proof fn lemma_each_entry(
    nodes: Map<Seq<Seq<char>>, TomlNode>,
    change: spec_fn(Seq<char>, Map<Seq<Seq<char>>, TomlNode>) -> Map<Seq<Seq<char>>, TomlNode>,
    key: Seq<char>,
)
    ensures
        toml::entry(with_each_entry(nodes, change), key) == change(key, toml::entry(nodes, key)),
        toml::is_table_like(with_each_entry(nodes, change)) == toml::is_table_like(nodes),
        toml::is_table(with_each_entry(nodes, change)) == toml::is_table(nodes),
{
    let each = with_each_entry(nodes, change);
    let wanted = change(key, toml::entry(nodes, key));
    assert forall|path: Seq<Seq<char>>|
        #![trigger toml::entry(each, key).contains_key(path)]
        toml::entry(each, key).contains_key(path) == wanted.contains_key(path) && (
        wanted.contains_key(path) ==> toml::entry(each, key)[path] == wanted[path]) by {
        assert((seq![key] + path).drop_first() =~= path);
    }
    assert(toml::entry(each, key) =~= wanted);
}

/// A table without stale dependencies stays as it is.
proof fn lemma_settled_table(
    table: Map<Seq<Seq<char>>, TomlNode>,
    rule: PinRuleView,
)
    requires
        !is_stale_table(table, rule),
    ensures
        pinned_table(table, rule) == table,
{
    let change = |key: Seq<char>, dependency: Map<Seq<Seq<char>>, TomlNode>|
        pinned_dependency(key, dependency, rule);
    assert forall|key: Seq<char>| #[trigger] change(key, toml::entry(table, key)) == toml::entry(
        table,
        key,
    ) by {
        assert(!has_stale_key(table, rule, key));
    }
    lemma_each_entry_same(table, change);
}

/// Dependency tables without stale dependencies stay as they are.
proof fn lemma_settled_tables(
    nodes: Map<Seq<Seq<char>>, TomlNode>,
    rule: PinRuleView,
    tables: nat,
)
    requires
        !has_stale_table(nodes, rule, tables),
    ensures
        pinned_tables(nodes, rule, tables) == nodes,
    decreases tables,
{
    if tables > 0 {
        lemma_settled_tables(nodes, rule, (tables - 1) as nat);
        let name = manifest::dependency_table(tables - 1).0;
        if toml::is_table_like(toml::entry(nodes, name)) {
            lemma_settled_table(toml::entry(nodes, name), rule);
            toml::lemma_entry_set(nodes, name, Map::empty(), Map::empty());
        }
    }
}

/// Where no requirement has to move, the document stays as it is.
pub proof fn settled_document_is_unchanged(
    nodes: Map<Seq<Seq<char>>, TomlNode>,
    rule: PinRuleView,
)
    requires
        toml::is_rooted(nodes),
        !is_stale_document(nodes, rule),
    ensures
        pinned_document(nodes, rule) == nodes,
{
    lemma_rooted_workspace(nodes);
    lemma_settled_document(nodes, rule);
}

/// The dependencies of a workspace stand in a workspace.
proof fn lemma_rooted_workspace(nodes: Map<Seq<Seq<char>>, TomlNode>)
    requires
        toml::is_rooted(nodes),
    ensures
        toml::is_table(manifest::workspace_dependencies(nodes)) ==> toml::has_entry(
            nodes,
            "workspace"@,
        ),
{
    if toml::is_table(manifest::workspace_dependencies(nodes)) {
        let path = seq!["workspace"@] + (seq!["dependencies"@] + Seq::empty());
        assert(nodes.contains_key(path));
        assert(path.drop_last() =~= seq!["workspace"@] + Seq::empty());
    }
}

proof fn lemma_settled_document(nodes: Map<Seq<Seq<char>>, TomlNode>, rule: PinRuleView)
    requires
        toml::is_table(manifest::workspace_dependencies(nodes)) ==> toml::has_entry(
            nodes,
            "workspace"@,
        ),
        !is_stale_document(nodes, rule),
    ensures
        pinned_document(nodes, rule) == nodes,
{
    let dependencies = manifest::workspace_dependencies(nodes);
    if toml::is_table(dependencies) {
        lemma_settled_table(dependencies, rule);
        toml::lemma_entry_set(
            toml::entry(nodes, "workspace"@),
            "dependencies"@,
            Map::empty(),
            Map::empty(),
        );
        toml::lemma_entry_set(nodes, "workspace"@, Map::empty(), Map::empty());
    }
    lemma_settled_tables(nodes, rule, 3);
    let targets = toml::entry(nodes, "target"@);
    if toml::is_table_like(targets) {
        let change = |key: Seq<char>, target: Map<Seq<Seq<char>>, TomlNode>|
            pinned_target(target, rule);
        assert forall|key: Seq<char>| #[trigger] change(key, toml::entry(targets, key))
            == toml::entry(targets, key) by {
            let target = toml::entry(targets, key);
            assert(!is_stale_target(targets, rule, key));
            if toml::is_table_like(target) {
                lemma_settled_tables(target, rule, 3);
            }
        }
        lemma_each_entry_same(targets, change);
        toml::lemma_entry_set(nodes, "target"@, Map::empty(), Map::empty());
    }
}

/// Requirements move to versions that start with a digit, and only where that
/// changes them.
pub open spec fn settles(rule: PinRuleView) -> bool {
    rule !is Inherited && forall|key: Seq<char>, name: Seq<char>|
        (#[trigger] rule.target(key, name)) is Some ==> rule.target(key, name)->0.len() > 0
            && version::is_digit(rule.target(key, name)->0[0])
}

/// A dependency whose requirement was moved is not stale.
proof fn lemma_pinned_dependency(
    key: Seq<char>,
    dependency: Map<Seq<Seq<char>>, TomlNode>,
    rule: PinRuleView,
)
    requires
        settles(rule),
    ensures
        !is_stale(key, pinned_dependency(key, dependency, rule), rule),
{
    if is_stale(key, dependency, rule) {
        reveal_strlit("version");
        reveal_strlit("package");
        reveal_strlit("path");
        assert("version"@[0] == 'v');
        assert("package"@[0] == 'p');
        assert("path"@[0] == 'p');
        let name = manifest::dependency_name(key, dependency);
        let requirement = local_requirement(dependency)->0;
        let next_version = rule.target(key, name)->0;
        let moved = version::retargeted(requirement, next_version);
        let child = toml::text_nodes(
            moved,
            assign_preserving_decor::kept_decor(toml::entry(dependency, "version"@)),
        );
        let pinned = pinned_dependency(key, dependency, rule);
        assert(pinned == toml::with_entry(dependency, "version"@, child));
        toml::lemma_other_entry(dependency, "version"@, child, "package"@);
        toml::lemma_other_entry(dependency, "version"@, child, "path"@);
        toml::lemma_entry_set(dependency, "version"@, child, child);
        version::moved_requirement_stays(requirement, next_version);
    }
}

proof fn lemma_pinned_table(
    table: Map<Seq<Seq<char>>, TomlNode>,
    rule: PinRuleView,
)
    requires
        settles(rule),
    ensures
        !is_stale_table(pinned_table(table, rule), rule),
        toml::is_table_like(pinned_table(table, rule)) == toml::is_table_like(table),
        toml::is_table(pinned_table(table, rule)) == toml::is_table(table),
{
    let change = |key: Seq<char>, dependency: Map<Seq<Seq<char>>, TomlNode>|
        pinned_dependency(key, dependency, rule);
    lemma_each_entry(table, change, Seq::empty());
    assert forall|key: Seq<char>| !#[trigger] has_stale_key(
        pinned_table(table, rule),
        rule,
        key,
    ) by {
        lemma_each_entry(table, change, key);
        lemma_pinned_dependency(key, toml::entry(table, key), rule);
    }
}

proof fn lemma_pinned_tables(
    nodes: Map<Seq<Seq<char>>, TomlNode>,
    rule: PinRuleView,
    tables: nat,
    upto: nat,
)
    requires
        settles(rule),
        upto <= tables <= 3,
    ensures
        !has_stale_table(pinned_tables(nodes, rule, tables), rule, upto),
    decreases upto,
{
    if upto > 0 {
        lemma_pinned_tables(nodes, rule, tables, (upto - 1) as nat);
        lemma_pinned_tables_entry(nodes, rule, tables, upto - 1);
        let name = manifest::dependency_table(upto - 1).0;
        if toml::is_table_like(toml::entry(nodes, name)) {
            lemma_pinned_table(toml::entry(nodes, name), rule);
        }
    }
}

/// A dependency table among the first ones was replaced, once.
proof fn lemma_pinned_tables_entry(
    nodes: Map<Seq<Seq<char>>, TomlNode>,
    rule: PinRuleView,
    tables: nat,
    t: int,
)
    requires
        0 <= t < tables <= 3,
    ensures
        ({
            let name = manifest::dependency_table(t).0;
            toml::entry(pinned_tables(nodes, rule, tables), name) == if toml::is_table_like(
                toml::entry(nodes, name),
            ) {
                pinned_table(toml::entry(nodes, name), rule)
            } else {
                toml::entry(nodes, name)
            }
        }),
    decreases tables,
{
    lemma_table_names();
    let name = manifest::dependency_table(t).0;
    let last = manifest::dependency_table(tables - 1).0;
    let earlier = pinned_tables(nodes, rule, (tables - 1) as nat);
    let child = pinned_table(toml::entry(nodes, last), rule);
    if t < tables - 1 {
        lemma_pinned_tables_entry(nodes, rule, (tables - 1) as nat, t);
        toml::lemma_other_entry(earlier, last, child, name);
    } else {
        toml::lemma_entry_set(earlier, last, child, child);
        lemma_pinned_tables_frame(nodes, rule, (tables - 1) as nat, last);
    }
}

/// Once the requirements have moved, none has to move again.
pub proof fn pinned_document_is_settled(
    nodes: Map<Seq<Seq<char>>, TomlNode>,
    rule: PinRuleView,
)
    requires
        toml::is_rooted(nodes),
        settles(rule),
    ensures
        !is_stale_document(pinned_document(nodes, rule), rule),
        pinned_document(pinned_document(nodes, rule), rule) == pinned_document(
            nodes,
            rule,
        ),
{
    lemma_table_names();
    let inherited = pinned_workspace(nodes, rule);
    let own = pinned_tables(inherited, rule, 3);
    let after = pinned_document(nodes, rule);
    let dependencies = manifest::workspace_dependencies(nodes);
    let targets = toml::entry(nodes, "target"@);
    let moved_targets = pinned_targets(targets, rule);
    lemma_workspace_frame(nodes, rule, "target"@);
    lemma_pinned_tables_frame(inherited, rule, 3, "target"@);
    lemma_pinned_tables_frame(inherited, rule, 3, "workspace"@);
    toml::lemma_other_entry(own, "target"@, moved_targets, "workspace"@);
    toml::lemma_entry_set(own, "target"@, moved_targets, moved_targets);
    assert(toml::entry(after, "workspace"@) == toml::entry(inherited, "workspace"@));
    if toml::is_table(dependencies) {
        let pinned = pinned_table(dependencies, rule);
        let workspace = toml::with_entry(
            toml::entry(nodes, "workspace"@),
            "dependencies"@,
            pinned,
        );
        toml::lemma_entry_set(nodes, "workspace"@, workspace, workspace);
        toml::lemma_entry_set(toml::entry(nodes, "workspace"@), "dependencies"@, pinned, pinned);
        lemma_pinned_table(dependencies, rule);
    }
    lemma_pinned_tables(inherited, rule, 3, 3);
    assert forall|t: int| 0 <= t < 3 implies toml::entry(
        own,
        (#[trigger] manifest::dependency_table(t)).0,
    ) == toml::entry(after, manifest::dependency_table(t).0) by {
        toml::lemma_other_entry(
            own,
            "target"@,
            moved_targets,
            manifest::dependency_table(t).0,
        );
    }
    lemma_same_tables(own, after, rule, 3);
    if toml::is_table_like(targets) {
        let change = |key: Seq<char>, target: Map<Seq<Seq<char>>, TomlNode>|
            pinned_target(target, rule);
        assert forall|key: Seq<char>| !#[trigger] is_stale_target(
            moved_targets,
            rule,
            key,
        ) by {
            lemma_each_entry(targets, change, key);
            let target = toml::entry(targets, key);
            if toml::is_table_like(target) {
                lemma_pinned_tables(target, rule, 3, 3);
            }
        }
    }
    lemma_rooted_workspace(nodes);
    lemma_settled_document(after, rule);
}

/// Items with the same dependency tables are equally stale.
proof fn lemma_same_tables(
    left: Map<Seq<Seq<char>>, TomlNode>,
    right: Map<Seq<Seq<char>>, TomlNode>,
    rule: PinRuleView,
    tables: nat,
)
    requires
        tables <= 3,
        forall|t: int|
            0 <= t < 3 ==> toml::entry(left, (#[trigger] manifest::dependency_table(t)).0)
                == toml::entry(right, manifest::dependency_table(t).0),
    ensures
        has_stale_table(left, rule, tables) == has_stale_table(right, rule, tables),
    decreases tables,
{
    if tables > 0 {
        lemma_same_tables(left, right, rule, (tables - 1) as nat);
        let t: int = tables - 1;
        assert(toml::entry(left, manifest::dependency_table(t).0) == toml::entry(
            right,
            manifest::dependency_table(t).0,
        ));
    }
}

/// Each entry of a table with its requirements moved is the dependency with its
/// requirement moved.
pub proof fn lemma_pinned_entry(
    table: Map<Seq<Seq<char>>, TomlNode>,
    rule: PinRuleView,
    key: Seq<char>,
)
    ensures
        toml::entry(pinned_table(table, rule), key) == pinned_dependency(
            key,
            toml::entry(table, key),
            rule,
        ),
{
    lemma_each_entry(
        table,
        |k: Seq<char>, dependency: Map<Seq<Seq<char>>, TomlNode>|
            pinned_dependency(k, dependency, rule),
        key,
    );
}


/// The names of the dependency tables.
proof fn lemma_table_name(t: Seq<char>) -> (n: int)
    requires
        t == "dependencies"@ || t == "dev-dependencies"@ || t == "build-dependencies"@,
    ensures
        0 <= n < 3,
        manifest::dependency_table(n).0 == t,
{
    if t == "dependencies"@ {
        0
    } else if t == "dev-dependencies"@ {
        1
    } else {
        2
    }
}

/// What a document makes of one of its dependency tables.
pub proof fn lemma_document_table(
    nodes: Map<Seq<Seq<char>>, TomlNode>,
    rule: PinRuleView,
    t: Seq<char>,
)
    requires
        t == "dependencies"@ || t == "dev-dependencies"@ || t == "build-dependencies"@,
    ensures
        toml::entry(pinned_document(nodes, rule), t) == if toml::is_table_like(
            toml::entry(nodes, t),
        ) {
            pinned_table(toml::entry(nodes, t), rule)
        } else {
            toml::entry(nodes, t)
        },
{
    let n = lemma_table_name(t);
    lemma_table_names();
    let inherited = pinned_workspace(nodes, rule);
    let own = pinned_tables(inherited, rule, 3);
    let targets = toml::entry(nodes, "target"@);
    assert(manifest::dependency_table(n).0 == t);
    lemma_workspace_frame(nodes, rule, t);
    lemma_pinned_tables_entry(inherited, rule, 3, n);
    toml::lemma_other_entry(own, "target"@, pinned_targets(targets, rule), t);
}

/// What a document makes of `[workspace.dependencies]`.
pub proof fn lemma_document_workspace(
    nodes: Map<Seq<Seq<char>>, TomlNode>,
    rule: PinRuleView,
)
    ensures
        toml::entry(pinned_document(nodes, rule), "workspace"@) == if toml::is_table(
            manifest::workspace_dependencies(nodes),
        ) {
            toml::with_entry(
                toml::entry(nodes, "workspace"@),
                "dependencies"@,
                pinned_table(manifest::workspace_dependencies(nodes), rule),
            )
        } else {
            toml::entry(nodes, "workspace"@)
        },
        manifest::workspace_dependencies(pinned_document(nodes, rule)) == if toml::is_table(
            manifest::workspace_dependencies(nodes),
        ) {
            pinned_table(manifest::workspace_dependencies(nodes), rule)
        } else {
            manifest::workspace_dependencies(nodes)
        },
{
    lemma_table_names();
    let inherited = pinned_workspace(nodes, rule);
    let own = pinned_tables(inherited, rule, 3);
    let targets = toml::entry(nodes, "target"@);
    lemma_pinned_tables_frame(inherited, rule, 3, "workspace"@);
    toml::lemma_other_entry(own, "target"@, pinned_targets(targets, rule), "workspace"@);
    let pinned = pinned_table(manifest::workspace_dependencies(nodes), rule);
    let workspace = toml::with_entry(
        toml::entry(nodes, "workspace"@),
        "dependencies"@,
        pinned,
    );
    toml::lemma_entry_set(nodes, "workspace"@, workspace, workspace);
    toml::lemma_entry_set(toml::entry(nodes, "workspace"@), "dependencies"@, pinned, pinned);
}

/// What a document makes of one of its targets.
proof fn lemma_document_one_target(
    nodes: Map<Seq<Seq<char>>, TomlNode>,
    rule: PinRuleView,
    target: Seq<char>,
)
    ensures
        manifest::entry2(pinned_document(nodes, rule), "target"@, target) == if toml::is_table_like(
            toml::entry(nodes, "target"@),
        ) {
            pinned_target(manifest::entry2(nodes, "target"@, target), rule)
        } else {
            manifest::entry2(nodes, "target"@, target)
        },
{
    lemma_table_names();
    let inherited = pinned_workspace(nodes, rule);
    let own = pinned_tables(inherited, rule, 3);
    let targets = toml::entry(nodes, "target"@);
    let moved = pinned_targets(targets, rule);
    lemma_workspace_frame(nodes, rule, "target"@);
    lemma_pinned_tables_frame(inherited, rule, 3, "target"@);
    toml::lemma_entry_set(own, "target"@, moved, moved);
    let change = |key: Seq<char>, t: Map<Seq<Seq<char>>, TomlNode>| pinned_target(t, rule);
    lemma_each_entry(targets, change, target);
}

/// What a document makes of a dependency table of a target.
pub proof fn lemma_document_target(
    nodes: Map<Seq<Seq<char>>, TomlNode>,
    rule: PinRuleView,
    target: Seq<char>,
    t: Seq<char>,
)
    requires
        t == "dependencies"@ || t == "dev-dependencies"@ || t == "build-dependencies"@,
    ensures
        ({
            let before = manifest::entry2(nodes, "target"@, target);
            toml::entry(manifest::entry2(pinned_document(nodes, rule), "target"@, target), t)
                == if toml::is_table_like(toml::entry(nodes, "target"@)) && toml::is_table_like(
                before,
            ) && toml::is_table_like(toml::entry(before, t)) {
                pinned_table(toml::entry(before, t), rule)
            } else {
                toml::entry(before, t)
            }
        }),
{
    let n = lemma_table_name(t);
    assert(manifest::dependency_table(n).0 == t);
    lemma_document_one_target(nodes, rule, target);
    lemma_pinned_tables_entry(manifest::entry2(nodes, "target"@, target), rule, 3, n);
}

/// What a document leaves alone.
pub proof fn lemma_document_frame(
    nodes: Map<Seq<Seq<char>>, TomlNode>,
    rule: PinRuleView,
    target: Seq<char>,
    field: Seq<char>,
)
    ensures
        ({
            let after = pinned_document(nodes, rule);
            let is_table_name = field == "dependencies"@ || field == "dev-dependencies"@ || field
                == "build-dependencies"@;
            &&& !is_table_name && field != "workspace"@ && field != "target"@ ==> toml::entry(
                after,
                field,
            ) == toml::entry(nodes, field)
            &&& field != "dependencies"@ ==> manifest::entry2(after, "workspace"@, field)
                == manifest::entry2(nodes, "workspace"@, field)
            &&& !is_table_name ==> toml::entry(manifest::entry2(after, "target"@, target), field)
                == toml::entry(manifest::entry2(nodes, "target"@, target), field)
        }),
{
    let inherited = pinned_workspace(nodes, rule);
    let own = pinned_tables(inherited, rule, 3);
    let targets = toml::entry(nodes, "target"@);
    let is_table_name = field == "dependencies"@ || field == "dev-dependencies"@ || field
        == "build-dependencies"@;
    lemma_document_workspace(nodes, rule);
    lemma_document_one_target(nodes, rule, target);
    if field != "dependencies"@ {
        toml::lemma_other_entry(
            toml::entry(nodes, "workspace"@),
            "dependencies"@,
            pinned_table(manifest::workspace_dependencies(nodes), rule),
            field,
        );
    }
    if !is_table_name {
        lemma_pinned_tables_frame(manifest::entry2(nodes, "target"@, target), rule, 3, field);
        if field != "workspace"@ && field != "target"@ {
            lemma_workspace_frame(nodes, rule, field);
            lemma_pinned_tables_frame(inherited, rule, 3, field);
            toml::lemma_other_entry(own, "target"@, pinned_targets(targets, rule), field);
        }
    }
}

} // verus!
