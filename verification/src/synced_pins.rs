//! Which requirements of a manifest move with the packages that they name.

use crate::assign_preserving_decor;
use crate::dependency_pins;
use crate::dependency_pins::PinRuleView;
use crate::manifest;
use crate::manifest_update;
use crate::manifest_update::BumpedPackage;
use crate::package::Language;
use crate::toml;
use crate::toml::TomlNode;
use crate::version;
use crate::workspace::MembersView;
use vstd::prelude::*;
use vstd::string::*;

verus! {

/// A dependency whose requirement has to move gets another version, and nothing
/// else of it changes.
proof fn lemma_synced(
    table: Map<Seq<Seq<char>>, TomlNode>,
    versions: Map<Seq<char>, Seq<char>>,
    key: Seq<char>,
)
    ensures
        ({
            let dependency = toml::entry(table, key);
            let synced = toml::entry(
                dependency_pins::pinned_table(table, PinRuleView::Uncovered(versions)),
                key,
            );
            let requirement = toml::text_of(toml::entry(dependency, "version"@))->0;
            let name = match toml::text_of(toml::entry(dependency, "package"@)) {
                Some(package) => package,
                None => key,
            };
            let stale = toml::is_table_like(dependency) && toml::has_entry(dependency, "path"@)
                && toml::text_of(toml::entry(dependency, "version"@)) is Some
                && versions.contains_key(name) && !version::admits(requirement, versions[name])
                && version::retargeted(requirement, versions[name]) != requirement;
            &&& stale ==> toml::text_of(toml::entry(synced, "version"@)) == Some(
                version::retargeted(requirement, versions[name]),
            )
            &&& stale ==> forall|field: Seq<char>|
                field != "version"@ ==> #[trigger] toml::entry(synced, field) == toml::entry(
                    dependency,
                    field,
                )
            &&& !stale ==> synced == dependency
        }),
{
    let rule = PinRuleView::Uncovered(versions);
    let dependency = toml::entry(table, key);
    dependency_pins::lemma_pinned_entry(table, rule, key);
    if dependency_pins::is_stale(key, dependency, rule) {
        let name = manifest::dependency_name(key, dependency);
        let moved = version::retargeted(
            dependency_pins::local_requirement(dependency)->0,
            versions[name],
        );
        let child = toml::text_nodes(
            moved,
            assign_preserving_decor::kept_decor(toml::entry(dependency, "version"@)),
        );
        toml::lemma_entry_set(dependency, "version"@, child, child);
        assert forall|field: Seq<char>| field != "version"@ implies #[trigger] toml::entry(
            toml::with_entry(dependency, "version"@, child),
            field,
        ) == toml::entry(dependency, field) by {
            toml::lemma_other_entry(dependency, "version"@, child, field);
        }
    }
}

/// After a sync each local dependency in `[dependencies]`, `[dev-dependencies]`
/// and `[build-dependencies]` that names a package with a new version, under its
/// key or its `package`, and does not admit that version, requires it under the
/// range prefix that it had. Nothing else of it changes, and no other dependency
/// does.
pub proof fn pins_of_dependency_tables_are_synced(
    nodes: Map<Seq<Seq<char>>, TomlNode>,
    versions: Map<Seq<char>, Seq<char>>,
    t: Seq<char>,
    key: Seq<char>,
)
    requires
        t == "dependencies"@ || t == "dev-dependencies"@ || t == "build-dependencies"@,
    ensures
        ({
            let after = dependency_pins::pinned_document(
                nodes,
                PinRuleView::Uncovered(versions),
            );
            let table = toml::entry(nodes, t);
            let dependency = toml::entry(table, key);
            let synced = toml::entry(toml::entry(after, t), key);
            let requirement = toml::text_of(toml::entry(dependency, "version"@))->0;
            let name = match toml::text_of(toml::entry(dependency, "package"@)) {
                Some(package) => package,
                None => key,
            };
            let stale = toml::is_table_like(table) && toml::is_table_like(dependency)
                && toml::has_entry(dependency, "path"@) && toml::text_of(
                toml::entry(dependency, "version"@),
            ) is Some && versions.contains_key(name) && !version::admits(
                requirement,
                versions[name],
            ) && version::retargeted(requirement, versions[name]) != requirement;
            &&& stale ==> toml::text_of(toml::entry(synced, "version"@)) == Some(
                version::retargeted(requirement, versions[name]),
            )
            &&& stale ==> forall|field: Seq<char>|
                field != "version"@ ==> #[trigger] toml::entry(synced, field) == toml::entry(
                    dependency,
                    field,
                )
            &&& !stale ==> synced == dependency
        }),
{
    let rule = PinRuleView::Uncovered(versions);
    dependency_pins::lemma_document_table(nodes, rule, t);
    lemma_synced(toml::entry(nodes, t), versions, key);
}

/// After a sync the same holds of `[workspace.dependencies]`, where that is a
/// table under a header.
pub proof fn pins_of_the_workspace_are_synced(
    nodes: Map<Seq<Seq<char>>, TomlNode>,
    versions: Map<Seq<char>, Seq<char>>,
    key: Seq<char>,
)
    ensures
        ({
            let after = dependency_pins::pinned_document(
                nodes,
                PinRuleView::Uncovered(versions),
            );
            let table = manifest::entry2(nodes, "workspace"@, "dependencies"@);
            let dependency = toml::entry(table, key);
            let synced = toml::entry(manifest::entry2(after, "workspace"@, "dependencies"@), key);
            let requirement = toml::text_of(toml::entry(dependency, "version"@))->0;
            let name = match toml::text_of(toml::entry(dependency, "package"@)) {
                Some(package) => package,
                None => key,
            };
            let stale = toml::is_table(table) && toml::is_table_like(dependency)
                && toml::has_entry(dependency, "path"@) && toml::text_of(
                toml::entry(dependency, "version"@),
            ) is Some && versions.contains_key(name) && !version::admits(
                requirement,
                versions[name],
            ) && version::retargeted(requirement, versions[name]) != requirement;
            &&& stale ==> toml::text_of(toml::entry(synced, "version"@)) == Some(
                version::retargeted(requirement, versions[name]),
            )
            &&& stale ==> forall|field: Seq<char>|
                field != "version"@ ==> #[trigger] toml::entry(synced, field) == toml::entry(
                    dependency,
                    field,
                )
            &&& !stale ==> synced == dependency
        }),
{
    let rule = PinRuleView::Uncovered(versions);
    dependency_pins::lemma_document_workspace(nodes, rule);
    lemma_synced(manifest::entry2(nodes, "workspace"@, "dependencies"@), versions, key);
}

/// After a sync the same holds of the dependency tables of each target.
pub proof fn pins_of_targets_are_synced(
    nodes: Map<Seq<Seq<char>>, TomlNode>,
    versions: Map<Seq<char>, Seq<char>>,
    target: Seq<char>,
    t: Seq<char>,
    key: Seq<char>,
)
    requires
        t == "dependencies"@ || t == "dev-dependencies"@ || t == "build-dependencies"@,
    ensures
        ({
            let after = dependency_pins::pinned_document(
                nodes,
                PinRuleView::Uncovered(versions),
            );
            let table = toml::entry(manifest::entry2(nodes, "target"@, target), t);
            let dependency = toml::entry(table, key);
            let synced = toml::entry(toml::entry(manifest::entry2(after, "target"@, target), t), key);
            let requirement = toml::text_of(toml::entry(dependency, "version"@))->0;
            let name = match toml::text_of(toml::entry(dependency, "package"@)) {
                Some(package) => package,
                None => key,
            };
            let stale = toml::is_table_like(toml::entry(nodes, "target"@)) && toml::is_table_like(
                manifest::entry2(nodes, "target"@, target),
            ) && toml::is_table_like(table) && toml::is_table_like(dependency)
                && toml::has_entry(dependency, "path"@) && toml::text_of(
                toml::entry(dependency, "version"@),
            ) is Some && versions.contains_key(name) && !version::admits(
                requirement,
                versions[name],
            ) && version::retargeted(requirement, versions[name]) != requirement;
            &&& stale ==> toml::text_of(toml::entry(synced, "version"@)) == Some(
                version::retargeted(requirement, versions[name]),
            )
            &&& stale ==> forall|field: Seq<char>|
                field != "version"@ ==> #[trigger] toml::entry(synced, field) == toml::entry(
                    dependency,
                    field,
                )
            &&& !stale ==> synced == dependency
        }),
{
    let rule = PinRuleView::Uncovered(versions);
    dependency_pins::lemma_document_target(nodes, rule, target, t);
    lemma_synced(toml::entry(manifest::entry2(nodes, "target"@, target), t), versions, key);
}

/// A sync leaves every other part of the document alone: the fields of the root
/// other than its dependency tables, its workspace and its targets, the fields of
/// the workspace other than its dependencies, and the fields of a target other
/// than its dependency tables.
pub proof fn a_sync_leaves_the_rest_alone(
    nodes: Map<Seq<Seq<char>>, TomlNode>,
    versions: Map<Seq<char>, Seq<char>>,
    target: Seq<char>,
    field: Seq<char>,
)
    ensures
        ({
            let after = dependency_pins::pinned_document(
                nodes,
                PinRuleView::Uncovered(versions),
            );
            let is_table_name = field == "dependencies"@ || field == "dev-dependencies"@ || field
                == "build-dependencies"@;
            &&& !is_table_name && field != "workspace"@ && field != "target"@ ==> toml::entry(
                after,
                field,
            ) == toml::entry(nodes, field)
            &&& field != "dependencies"@ ==> manifest::entry2(after, "workspace"@, field)
                == manifest::entry2(nodes, "workspace"@, field)
            &&& !is_table_name ==> toml::entry(manifest::entry2(after, "target"@, target), field)
                == toml::entry(manifest::entry2(nodes, "target"@, target), field)
        }),
{
    dependency_pins::lemma_document_frame(nodes, PinRuleView::Uncovered(versions), target, field);
}


/// A local dependency that is pinned to one version, `=X.Y.Z`, of a package whose
/// new version has other numbers is pinned to the new version afterwards.
pub proof fn exact_pins_follow_their_package(
    nodes: Map<Seq<Seq<char>>, TomlNode>,
    versions: Map<Seq<char>, Seq<char>>,
    t: Seq<char>,
    key: Seq<char>,
    x: Seq<char>,
    y: Seq<char>,
    z: Seq<char>,
    p: Seq<char>,
    q: Seq<char>,
    r: Seq<char>,
    build: Seq<char>,
)
    requires
        t == "dependencies"@ || t == "dev-dependencies"@ || t == "build-dependencies"@,
        version::number(x) is Some,
        version::number(y) is Some,
        version::number(z) is Some,
        version::number(p) is Some,
        version::number(q) is Some,
        version::number(r) is Some,
        build.len() == 0 || build[0] == '+',
        version::number(x) != version::number(p) || version::number(y) != version::number(q)
            || version::number(z) != version::number(r),
        toml::is_table_like(toml::entry(nodes, t)),
        toml::is_table_like(manifest::entry2(nodes, t, key)),
        toml::has_entry(manifest::entry2(nodes, t, key), "path"@),
        toml::text_of(toml::entry(manifest::entry2(nodes, t, key), "package"@)) is None,
        toml::text_of(toml::entry(manifest::entry2(nodes, t, key), "version"@)) == Some(
            "="@ + (x + "."@ + y + "."@ + z),
        ),
        versions.contains_key(key),
        versions[key] == p + "."@ + q + "."@ + r + build,
    ensures
        ({
            let after = dependency_pins::pinned_document(
                nodes,
                PinRuleView::Uncovered(versions),
            );
            toml::text_of(toml::entry(manifest::entry2(after, t, key), "version"@)) == Some(
                "="@ + (p + "."@ + q + "."@ + r + build),
            )
        }),
{
    let tail = x + "."@ + y + "."@ + z;
    let new = p + "."@ + q + "."@ + r + build;
    reveal_strlit("=");
    assert("="@ =~= seq!['=']);
    version::exact_requirement_admits_its_numbers(x, y, z, p, q, r, build);
    assert(tail[0] == x[0]);
    assert(version::is_digit(x[0]));
    version::moved_requirement_is_prefix_and_version("="@, tail, new);
    assert(tail != new) by {
        if tail == new {
            version::exact_requirement_admits_its_numbers(x, y, z, x, y, z, Seq::empty());
            assert(x + "."@ + y + "."@ + z + Seq::<char>::empty() =~= tail);
            assert(version::admits("="@ + tail, tail));
        }
    }
    if "="@ + new == "="@ + tail {
        assert(("="@ + new).skip(1) =~= new);
        assert(("="@ + tail).skip(1) =~= tail);
    }
    pins_of_dependency_tables_are_synced(nodes, versions, t, key);
}

/// What moving requirements by a rule makes of one dependency of a workspace.
proof fn lemma_moved(
    nodes: Map<Seq<Seq<char>>, TomlNode>,
    rule: PinRuleView,
    key: Seq<char>,
)
    ensures
        ({
            let table = manifest::entry2(nodes, "workspace"@, "dependencies"@);
            let moved = toml::entry(
                manifest::entry2(
                    manifest_update::with_moved_dependencies(nodes, rule),
                    "workspace"@,
                    "dependencies"@,
                ),
                key,
            );
            let dependency = toml::entry(table, key);
            let stale = toml::is_table(table) && dependency_pins::is_stale(key, dependency, rule);
            &&& !stale ==> moved == dependency
            &&& stale ==> toml::text_of(toml::entry(moved, "version"@)) == Some(
                version::retargeted(
                    dependency_pins::local_requirement(dependency)->0,
                    rule.target(key, manifest::dependency_name(key, dependency))->0,
                ),
            )
            &&& stale ==> forall|field: Seq<char>|
                field != "version"@ ==> #[trigger] toml::entry(moved, field) == toml::entry(
                    dependency,
                    field,
                )
        }),
{
    let table = manifest::entry2(nodes, "workspace"@, "dependencies"@);
    let workspace = toml::entry(nodes, "workspace"@);
    let pinned = dependency_pins::pinned_table(table, rule);
    let changed = toml::with_entry(workspace, "dependencies"@, pinned);
    let dependency = toml::entry(table, key);
    dependency_pins::lemma_pinned_entry(table, rule, key);
    toml::lemma_entry_set(workspace, "dependencies"@, pinned, pinned);
    toml::lemma_entry_set(nodes, "workspace"@, changed, changed);
    if dependency_pins::is_stale(key, dependency, rule) {
        let child = toml::text_nodes(
            version::retargeted(
                dependency_pins::local_requirement(dependency)->0,
                rule.target(key, manifest::dependency_name(key, dependency))->0,
            ),
            assign_preserving_decor::kept_decor(toml::entry(dependency, "version"@)),
        );
        toml::lemma_entry_set(dependency, "version"@, child, child);
        assert forall|field: Seq<char>| field != "version"@ implies #[trigger] toml::entry(
            toml::with_entry(dependency, "version"@, child),
            field,
        ) == toml::entry(dependency, field) by {
            toml::lemma_other_entry(dependency, "version"@, child, field);
        }
    }
}

/// The requirements of `[workspace.dependencies]` follow the bumped packages: a
/// local dependency that names one requires its new version afterwards, under the
/// range prefix that it had, whether it admitted that version or not. Nothing else
/// of it changes, and no other dependency does.
pub proof fn workspace_dependencies_follow_bumped_packages(
    nodes: Map<Seq<Seq<char>>, TomlNode>,
    versions: Map<Seq<char>, Seq<char>>,
    key: Seq<char>,
)
    ensures
        ({
            let after = manifest_update::with_moved_dependencies(
                nodes,
                PinRuleView::Named(versions),
            );
            let table = manifest::entry2(nodes, "workspace"@, "dependencies"@);
            let dependency = toml::entry(table, key);
            let moved = toml::entry(
                manifest::entry2(after, "workspace"@, "dependencies"@),
                key,
            );
            let requirement = toml::text_of(toml::entry(dependency, "version"@))->0;
            let name = match toml::text_of(toml::entry(dependency, "package"@)) {
                Some(package) => package,
                None => key,
            };
            let named = toml::is_table(table) && toml::is_table_like(dependency)
                && toml::has_entry(dependency, "path"@) && toml::text_of(
                toml::entry(dependency, "version"@),
            ) is Some && versions.contains_key(name);
            &&& named ==> toml::text_of(toml::entry(moved, "version"@)) == Some(
                version::retargeted(requirement, versions[name]),
            )
            &&& named ==> forall|field: Seq<char>|
                field != "version"@ ==> #[trigger] toml::entry(moved, field) == toml::entry(
                    dependency,
                    field,
                )
            &&& !named ==> moved == dependency
        }),
{
    lemma_moved(nodes, PinRuleView::Named(versions), key);
}

/// The requirements of members that inherit the version of their workspace follow
/// it: a local dependency of `[workspace.dependencies]` on one of them that is for
/// the old version requires the new one afterwards, under the range prefix that it
/// had. Nothing else of it changes, and no other dependency does.
pub proof fn requirements_of_members_follow_their_workspace(
    nodes: Map<Seq<Seq<char>>, TomlNode>,
    members: MembersView,
    old_version: Seq<char>,
    new_version: Seq<char>,
    key: Seq<char>,
    prefix: Seq<char>,
    tail: Seq<char>,
)
    requires
        forall|i: int| 0 <= i < prefix.len() ==> !version::is_digit(#[trigger] prefix[i]),
        tail.len() > 0,
        version::is_digit(tail[0]),
        toml::text_of(
            toml::entry(
                toml::entry(manifest::entry2(nodes, "workspace"@, "dependencies"@), key),
                "version"@,
            ),
        ) == Some(prefix + tail),
    ensures
        ({
            let after = manifest_update::with_moved_dependencies(
                nodes,
                PinRuleView::Inherited { members, old_version, new_version },
            );
            let table = manifest::entry2(nodes, "workspace"@, "dependencies"@);
            let dependency = toml::entry(table, key);
            let moved = toml::entry(
                manifest::entry2(after, "workspace"@, "dependencies"@),
                key,
            );
            let name = match toml::text_of(toml::entry(dependency, "package"@)) {
                Some(package) => package,
                None => key,
            };
            let follows = toml::is_table(table) && toml::is_table_like(dependency)
                && toml::has_entry(dependency, "path"@) && members.covers(key, name) && tail
                == old_version;
            &&& follows ==> toml::text_of(toml::entry(moved, "version"@)) == Some(
                prefix + new_version,
            )
            &&& follows ==> forall|field: Seq<char>|
                field != "version"@ ==> #[trigger] toml::entry(moved, field) == toml::entry(
                    dependency,
                    field,
                )
            &&& !follows ==> moved == dependency
        }),
{
    version::lemma_written_prefix(prefix, tail);
    lemma_moved(nodes, PinRuleView::Inherited { members, old_version, new_version }, key);
}

/// The versions that requirements follow are those of the Rust packages with a
/// name and a version, of several with one name the last.
pub proof fn versions_are_those_of_the_last_packages(
    packages: Seq<BumpedPackage>,
    name: Seq<char>,
    i: int,
)
    requires
        0 <= i < packages.len(),
        packages[i].language == Language::Rust,
        packages[i].name is Some,
        packages[i].name->0@ == name,
        packages[i].version is Some,
        forall|k: int|
            i < k < packages.len() ==> (#[trigger] packages[k]).language != Language::Rust
                || packages[k].name is None || packages[k].name->0@ != name
                || packages[k].version is None,
    ensures
        manifest_update::rust_versions(packages).contains_key(name),
        manifest_update::rust_versions(packages)[name] == packages[i].version->0@,
    decreases packages.len(),
{
    let less = packages.drop_last();
    let last = packages.len() - 1;
    assert(packages.last() == packages[last]);
    if i < last {
        assert(packages[last].language != Language::Rust || packages[last].name is None
            || packages[last].name->0@ != name || packages[last].version is None);
        assert forall|k: int| i < k < less.len() implies (#[trigger] less[k]).language
            != Language::Rust || less[k].name is None || less[k].name->0@ != name
            || less[k].version is None by {
            assert(less[k] == packages[k]);
        }
        versions_are_those_of_the_last_packages(less, name, i);
    }
}

/// Requirements follow no other names than those of such packages.
pub proof fn only_versioned_rust_packages_are_followed(
    packages: Seq<BumpedPackage>,
    name: Seq<char>,
) -> (i: int)
    requires
        manifest_update::rust_versions(packages).contains_key(name),
    ensures
        0 <= i < packages.len(),
        packages[i].language == Language::Rust,
        packages[i].name is Some,
        packages[i].name->0@ == name,
        packages[i].version is Some,
    decreases packages.len(),
{
    let less = packages.drop_last();
    let last = packages.len() - 1;
    if packages.last().language == Language::Rust && packages.last().name is Some
        && packages.last().name->0@ == name && packages.last().version is Some {
        last
    } else {
        only_versioned_rust_packages_are_followed(less, name)
    }
}

} // verus!
