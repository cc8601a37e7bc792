use changepacks::config::Config;
use changepacks::gen_update_map::{gen_update_map, LogFile, CARRY_FORWARD_LOG_PREFIX};
use changepacks::package::RustPackage;
use changepacks::paths::normalize_path_separators_of;
use changepacks::project::Project;
use changepacks::update_map::{ChangePackResultLog, UpdateMap};
use changepacks::update_on::{apply_update_on_rules_from, InvalidTrigger};
use changepacks::update_plan::{Change, ChangePackLog, MergedPair, UpdatePlan};
use changepacks::update_type::UpdateType;

fn create_project(name: &str, dependencies: Vec<&str>) -> Project {
    let mut package = RustPackage::new(
        Some(name.to_string()),
        Some("1.0.0".to_string()),
        format!("/test/{name}/package.json"),
        format!("{name}/package.json"),
    );
    for dependency in dependencies {
        package.add_dependency(dependency);
    }
    Project::Package(package)
}

fn config_with(rules: &[(&str, &[&str])]) -> Config {
    let mut config = Config::new("main");
    for (trigger, dependents) in rules {
        let dependents = dependents.iter().map(|path| path.to_string()).collect();
        config.set_rule(trigger.to_string(), dependents);
    }
    config
}

fn write_provenance_log(
    files: &mut Vec<LogFile>,
    file_name: &str,
    project_path: &str,
    update_type: UpdateType,
    note: &str,
) {
    files.push(LogFile {
        path: format!("/test/.changepacks/{file_name}"),
        log: ChangePackLog {
            changes: vec![Change {
                path: project_path.to_string(),
                update_type,
            }],
            note: note.to_string(),
        },
    });
}

fn update_on_note(trigger: &str) -> String {
    format!("Auto-update triggered by updateOn rule: {trigger}")
}

fn carry_forward_for(plan: &mut UpdatePlan, excluded: &[&str]) -> Vec<(String, String)> {
    plan.retain_updates(|path: &str| !excluded.iter().any(|candidate| path == *candidate))
        .iter()
        .map(|log| (log.changes[0].path.clone(), log.note.clone()))
        .collect()
}

fn merge(plan: &mut UpdatePlan, source: &str, target: &str) {
    plan.merge_provenance(&vec![MergedPair {
        source: source.to_string(),
        target: target.to_string(),
    }]);
}

fn apply_update_on_rules(update_map: &mut UpdateMap, config: &Config) -> Result<(), InvalidTrigger> {
    let mut expansion_seeds = update_map.paths();
    apply_update_on_rules_from(update_map, &config.update_on, &mut expansion_seeds).map(|_| ())
}

fn update_type(update_map: &UpdateMap, path: &str) -> UpdateType {
    update_map.get(path).unwrap().update_type
}

fn package_log(files: &mut Vec<LogFile>, file_name: &str, path: &str, update_type: UpdateType) {
    write_provenance_log(files, file_name, path, update_type, "");
}

#[test]
fn test_gen_update_map() {
    let config = config_with(&[]);
    let mut files = Vec::new();
    assert!(gen_update_map(&files, &config).unwrap().updates().is_empty());

    package_log(&mut files, "changepack_log_1.json", "/work/package", UpdateType::Patch);
    let plan = gen_update_map(&files, &config).unwrap();
    assert!(plan.updates().len() == 1);
    assert!(update_type(plan.updates(), "/work/package") == UpdateType::Patch);

    package_log(&mut files, "changepack_log_2.json", "/work/package", UpdateType::Minor);
    let plan = gen_update_map(&files, &config).unwrap();
    assert!(plan.updates().len() == 1);
    assert!(update_type(plan.updates(), "/work/package") == UpdateType::Minor);

    package_log(&mut files, "changepack_log_3.json", "/work/package2", UpdateType::Major);
    let plan = gen_update_map(&files, &config).unwrap();
    assert!(plan.updates().len() == 2);
    assert!(update_type(plan.updates(), "/work/package2") == UpdateType::Major);

    package_log(&mut files, "changepack_log_4.json", "/work/package2", UpdateType::Patch);
    let plan = gen_update_map(&files, &config).unwrap();
    assert!(plan.updates().len() == 2);
    assert!(update_type(plan.updates(), "/work/package2") == UpdateType::Major);
}

#[test]
fn test_update_on_rules() {
    let config = config_with(&[("crates/*", &["bridge/node", "bridge/python"][..])]);
    let mut files = Vec::new();
    write_provenance_log(
        &mut files,
        "changepack_log_update_on.json",
        "crates/core",
        UpdateType::Minor,
        "Update core",
    );

    let plan = gen_update_map(&files, &config).unwrap();

    assert_eq!(plan.updates().len(), 3);
    assert_eq!(update_type(plan.updates(), "crates/core"), UpdateType::Minor);
    assert_eq!(update_type(plan.updates(), "bridge/node"), UpdateType::Patch);
    assert_eq!(update_type(plan.updates(), "bridge/python"), UpdateType::Patch);
}

#[test]
fn persisted_carry_plan_does_not_seed_update_on_or_reverse_dependencies() {
    let mut files = Vec::new();
    write_provenance_log(
        &mut files,
        &format!("{CARRY_FORWARD_LOG_PREFIX}test.json"),
        "core/package.json",
        UpdateType::Patch,
        "persisted generated core",
    );
    let config = config_with(&[
        ("core/package.json", &["update-on/package.json"][..]),
    ]);
    let mut plan = gen_update_map(&files, &config).unwrap();
    let core = create_project("core", vec![]);
    let cli = create_project("cli", vec!["core"]);

    plan.apply_reverse_dependencies(&[&core, &cli], "/test")
        .unwrap();

    assert_eq!(plan.updates().len(), 1);
    assert!(plan.updates().contains("core/package.json"));
    assert!(!plan.updates().contains("update-on/package.json"));
    assert!(!plan.updates().contains("cli/package.json"));
}

#[test]
fn explicit_log_dominates_persisted_carry_for_fresh_expansion() {
    let mut files = Vec::new();
    let path = "core/package.json".to_string();
    write_provenance_log(
        &mut files,
        &format!("{CARRY_FORWARD_LOG_PREFIX}test.json"),
        &path,
        UpdateType::Patch,
        "persisted generated core",
    );
    write_provenance_log(
        &mut files,
        "changepack_log_explicit.json",
        &path,
        UpdateType::Minor,
        "fresh explicit core",
    );
    let generated_path = "bridge/node/package.json".to_string();
    let config = config_with(&[
        ("core/package.json", &["bridge/node/package.json"][..]),
    ]);

    let plan = gen_update_map(&files, &config).unwrap();

    assert_eq!(update_type(plan.updates(), &path), UpdateType::Minor);
    assert_eq!(update_type(plan.updates(), &generated_path), UpdateType::Patch);
}

#[test]
fn merge_provenance_skips_source_without_provenance() {
    let mut files = Vec::new();
    write_provenance_log(
        &mut files,
        "changepack_log_seed.json",
        "seed/package.json",
        UpdateType::Minor,
        "explicit seed",
    );
    let config = config_with(&[
        ("seed/package.json", &["target/package.json"][..]),
    ]);
    let mut plan = gen_update_map(&files, &config).unwrap();

    merge(&mut plan, "ghost/package.json", "target/package.json");

    assert_eq!(
        carry_forward_for(&mut plan, &["target/package.json"]),
        vec![(
            "target/package.json".to_string(),
            update_on_note("seed/package.json")
        )]
    );
}

#[test]
fn merge_provenance_vacant_target_adopts_source() {
    let mut files = Vec::new();
    write_provenance_log(
        &mut files,
        "changepack_log_seed.json",
        "seed/package.json",
        UpdateType::Minor,
        "explicit seed",
    );
    let config = config_with(&[
        ("seed/package.json", &["member/Cargo.toml"][..]),
    ]);
    let mut plan = gen_update_map(&files, &config).unwrap();
    plan.updates
        .insert_new("workspace/Cargo.toml".to_string(), UpdateType::Patch, vec![]);

    merge(&mut plan, "member/Cargo.toml", "workspace/Cargo.toml");

    assert_eq!(
        carry_forward_for(&mut plan, &["member/Cargo.toml", "workspace/Cargo.toml"]),
        vec![(
            "workspace/Cargo.toml".to_string(),
            update_on_note("seed/package.json")
        )]
    );
}

#[test]
fn merge_provenance_keeps_explicit_target_over_generated_source() {
    let mut files = Vec::new();
    write_provenance_log(
        &mut files,
        "changepack_log_seed.json",
        "seed/package.json",
        UpdateType::Minor,
        "explicit seed",
    );
    write_provenance_log(
        &mut files,
        "changepack_log_target.json",
        "target/package.json",
        UpdateType::Minor,
        "explicit target",
    );
    let config = config_with(&[
        ("seed/package.json", &["source/package.json"][..]),
    ]);

    let mut control = gen_update_map(&files, &config).unwrap();
    assert_eq!(
        carry_forward_for(
            &mut control,
            &["source/package.json", "target/package.json"]
        ),
        vec![(
            "source/package.json".to_string(),
            update_on_note("seed/package.json")
        )]
    );

    let mut plan = gen_update_map(&files, &config).unwrap();
    merge(&mut plan, "source/package.json", "target/package.json");

    assert!(
        carry_forward_for(&mut plan, &["source/package.json", "target/package.json"])
            .is_empty()
    );
}

#[test]
fn merge_provenance_explicit_source_promotes_generated_target() {
    let mut files = Vec::new();
    write_provenance_log(
        &mut files,
        "changepack_log_seed.json",
        "seed/package.json",
        UpdateType::Minor,
        "explicit seed",
    );
    write_provenance_log(
        &mut files,
        "changepack_log_source.json",
        "source/package.json",
        UpdateType::Minor,
        "explicit source",
    );
    let config = config_with(&[
        ("seed/package.json", &["target/package.json"][..]),
    ]);

    let mut control = gen_update_map(&files, &config).unwrap();
    assert_eq!(
        carry_forward_for(&mut control, &["target/package.json"]),
        vec![(
            "target/package.json".to_string(),
            update_on_note("seed/package.json")
        )]
    );

    let mut plan = gen_update_map(&files, &config).unwrap();
    merge(&mut plan, "source/package.json", "target/package.json");

    assert!(carry_forward_for(&mut plan, &["target/package.json"]).is_empty());
}

#[test]
fn merge_provenance_appends_generated_notes_in_target_order() {
    let mut files = Vec::new();
    write_provenance_log(
        &mut files,
        "changepack_log_a.json",
        "a/package.json",
        UpdateType::Minor,
        "explicit a",
    );
    write_provenance_log(
        &mut files,
        "changepack_log_b.json",
        "b/package.json",
        UpdateType::Minor,
        "explicit b",
    );
    let config = config_with(&[
        ("a/package.json", &["target/package.json"][..]),
        ("b/package.json", &["source/package.json"][..]),
    ]);
    let mut plan = gen_update_map(&files, &config).unwrap();

    merge(&mut plan, "source/package.json", "target/package.json");

    assert_eq!(
        carry_forward_for(&mut plan, &["source/package.json", "target/package.json"]),
        vec![
            (
                "target/package.json".to_string(),
                update_on_note("a/package.json")
            ),
            (
                "target/package.json".to_string(),
                update_on_note("b/package.json")
            ),
        ]
    );
}

#[test]
fn merge_provenance_persisted_source_promotes_fresh_target() {
    let mut files = Vec::new();
    write_provenance_log(
        &mut files,
        "changepack_log_seed.json",
        "seed/package.json",
        UpdateType::Minor,
        "explicit seed",
    );
    write_provenance_log(
        &mut files,
        &format!("{CARRY_FORWARD_LOG_PREFIX}source.json"),
        "source/package.json",
        UpdateType::Patch,
        "persisted generated source",
    );
    let config = config_with(&[
        ("seed/package.json", &["target/package.json"][..]),
    ]);

    let mut control = gen_update_map(&files, &config).unwrap();
    assert_eq!(
        carry_forward_for(
            &mut control,
            &["source/package.json", "target/package.json"]
        ),
        vec![(
            "target/package.json".to_string(),
            update_on_note("seed/package.json")
        )]
    );

    let mut plan = gen_update_map(&files, &config).unwrap();
    merge(&mut plan, "source/package.json", "target/package.json");

    assert!(
        carry_forward_for(&mut plan, &["source/package.json", "target/package.json"])
            .is_empty()
    );
}

#[test]
fn merge_provenance_rekeys_expansion_seed_to_target() {
    let mut files = Vec::new();
    write_provenance_log(
        &mut files,
        "changepack_log_member.json",
        "member/package.json",
        UpdateType::Minor,
        "explicit member",
    );
    write_provenance_log(
        &mut files,
        &format!("{CARRY_FORWARD_LOG_PREFIX}core.json"),
        "core/package.json",
        UpdateType::Patch,
        "persisted generated core",
    );
    let config = config_with(&[]);
    let core = create_project("core", vec![]);
    let member = create_project("member", vec![]);
    let core_dependent = create_project("core-dependent", vec!["core"]);
    let member_dependent = create_project("member-dependent", vec!["member"]);
    let projects: Vec<&Project> = vec![&core, &member, &core_dependent, &member_dependent];

    let mut plan = gen_update_map(&files, &config).unwrap();
    merge(&mut plan, "member/package.json", "core/package.json");
    plan.apply_reverse_dependencies(&projects, "/test")
        .unwrap();

    assert!(plan.updates().contains("core-dependent/package.json"));
    assert!(!plan.updates().contains("member-dependent/package.json"));
}

#[test]
fn retain_updates_removes_excluded_and_keeps_retained_entries() {
    let mut files = Vec::new();
    write_provenance_log(
        &mut files,
        "changepack_log_keep.json",
        "keep/package.json",
        UpdateType::Minor,
        "explicit keep",
    );
    write_provenance_log(
        &mut files,
        "changepack_log_drop.json",
        "drop/package.json",
        UpdateType::Major,
        "explicit drop",
    );
    let mut plan = gen_update_map(&files, &config_with(&[]))
        .unwrap();
    assert_eq!(plan.updates().len(), 2);

    plan.retain_updates(|path: &str| path == "keep/package.json");

    assert_eq!(plan.updates().len(), 1);
    assert!(!plan.updates().contains("drop/package.json"));
    let kept = plan.updates().get("keep/package.json").unwrap();
    assert_eq!(kept.update_type, UpdateType::Minor);
    assert_eq!(kept.logs.len(), 1);
}

#[test]
fn retain_updates_emits_carry_forward_only_for_fresh_generated_provenance() {
    let mut files = Vec::new();
    write_provenance_log(
        &mut files,
        "changepack_log_explicit.json",
        "explicit/package.json",
        UpdateType::Minor,
        "explicit bump",
    );
    write_provenance_log(
        &mut files,
        &format!("{CARRY_FORWARD_LOG_PREFIX}persisted.json"),
        "persisted/package.json",
        UpdateType::Patch,
        "persisted generated bump",
    );
    let config = config_with(&[
        ("explicit/package.json", &["fresh/package.json"][..]),
    ]);
    let mut plan = gen_update_map(&files, &config).unwrap();
    assert_eq!(plan.updates().len(), 3);

    assert_eq!(
        carry_forward_for(
            &mut plan,
            &[
                "explicit/package.json",
                "fresh/package.json",
                "persisted/package.json",
            ],
        ),
        vec![(
            "fresh/package.json".to_string(),
            update_on_note("explicit/package.json"),
        )]
    );
    assert!(plan.updates().is_empty());
}

#[test]
fn retain_updates_carry_forward_log_names_only_the_removed_path_and_type() {
    let mut files = Vec::new();
    write_provenance_log(
        &mut files,
        "changepack_log_seed.json",
        "seed/package.json",
        UpdateType::Minor,
        "explicit seed",
    );
    let config = config_with(&[
        ("seed/package.json", &["fresh/package.json"][..]),
    ]);
    let mut plan = gen_update_map(&files, &config).unwrap();
    let fresh = "fresh/package.json".to_string();
    assert_eq!(update_type(plan.updates(), &fresh), UpdateType::Patch);
    let at = plan
        .updates
        .find(&fresh)
        .expect("the updateOn rule scheduled the dependent");
    plan.updates.entries[at].update_type = UpdateType::Major;

    let logs = plan.retain_updates(|path: &str| path != fresh);

    assert_eq!(logs.len(), 1);
    assert_eq!(logs[0].changes.len(), 1);
    assert_eq!(logs[0].changes[0].path, fresh);
    assert_eq!(logs[0].changes[0].update_type, UpdateType::Major);
    assert_eq!(logs[0].note, update_on_note("seed/package.json"));
    assert_eq!(plan.updates().len(), 1);
    assert_eq!(update_type(plan.updates(), "seed/package.json"), UpdateType::Minor);
}

#[test]
fn retain_updates_emits_carry_forward_logs_in_compare_paths_order() {
    let mut files = Vec::new();
    write_provenance_log(
        &mut files,
        "changepack_log_seed.json",
        "seed/package.json",
        UpdateType::Minor,
        "explicit seed",
    );
    let config = config_with(&[
        ("seed/package.json", &["zz/beta/package.json", "zz\\alpha/package.json", "aa/gamma/package.json"][..]),
    ]);
    let mut plan = gen_update_map(&files, &config).unwrap();

    let note = update_on_note("seed/package.json");
    assert_eq!(
        carry_forward_for(
            &mut plan,
            &[
                "zz/beta/package.json",
                "zz\\alpha/package.json",
                "aa/gamma/package.json",
            ],
        ),
        vec![
            ("aa/gamma/package.json".to_string(), note.clone()),
            ("zz\\alpha/package.json".to_string(), note.clone()),
            ("zz/beta/package.json".to_string(), note),
        ]
    );
}

#[test]
fn test_apply_update_on_rules_empty_update_map_is_noop() {
    let config = config_with(&[("crates/*", &["bridge/node"][..])]);

    let mut update_map = UpdateMap::new();

    apply_update_on_rules(&mut update_map, &config).unwrap();

    assert!(
        update_map.is_empty(),
        "empty update_map + non-empty updateOn config must stay empty (fast-path violated)"
    );
}

#[test]
fn test_gen_update_map_invalid_update_on_pattern_is_error() {
    let files = Vec::new();
    let config = config_with(&[("[invalid", &["bridge/node"][..])]);

    let error = gen_update_map(&files, &config)
        .expect_err("invalid updateOn patterns must be rejected");

    assert!(
        error
            .message()
            .contains("invalid glob pattern in updateOn config: [invalid")
    );
}

#[test]
fn test_apply_update_on_rules_normalizes_candidate_separators() {
    assert_eq!(
        normalize_path_separators_of("crates/core/Cargo.toml"),
        "crates/core/Cargo.toml"
    );
    assert_eq!(
        normalize_path_separators_of(r"crates\core\Cargo.toml"),
        "crates/core/Cargo.toml"
    );

    let config = config_with(&[
        ("bridge/*", &["release/Cargo.toml"][..]),
        ("crates/*", &["bridge/node/Cargo.toml"][..]),
    ]);

    for candidate in ["crates/core/Cargo.toml", r"crates\core\Cargo.toml"] {
        let candidate_path = candidate.to_string();
        let unrelated_path = "docs/guide.md".to_string();
        let mut update_map = UpdateMap::new();
        update_map.insert_new(candidate_path.clone(), UpdateType::Minor, vec![]);
        update_map.insert_new(unrelated_path.clone(), UpdateType::Major, vec![]);

        apply_update_on_rules(&mut update_map, &config).unwrap();

        assert_eq!(update_map.len(), 4, "candidate: {candidate}");
        assert!(
            update_map.contains(&candidate_path),
            "native candidate key must remain unchanged: {candidate}"
        );
        assert_eq!(
            update_type(&update_map, &unrelated_path),
            UpdateType::Major,
            "unrelated paths must remain unmatched: {candidate}"
        );
        assert!(
            update_map.get(&unrelated_path).unwrap().logs.is_empty(),
            "unrelated paths must not receive updateOn notes: {candidate}"
        );
        assert_eq!(
            update_type(&update_map, "bridge/node/Cargo.toml"),
            UpdateType::Patch,
            "candidate: {candidate}"
        );
        assert_eq!(
            update_type(&update_map, "release/Cargo.toml"),
            UpdateType::Patch,
            "transitive rules must converge: {candidate}"
        );
    }
}

#[test]
fn test_apply_update_on_rules_no_match() {
    let config = config_with(&[("other/*", &["bridge/node"][..])]);

    let mut update_map = UpdateMap::new();
    update_map.insert_new(
        "crates/core".to_string(),
        UpdateType::Minor,
        vec![ChangePackResultLog::new(UpdateType::Minor, "Update core".to_string())],
    );

    apply_update_on_rules(&mut update_map, &config).unwrap();

    assert_eq!(update_map.len(), 1);
}

#[test]
fn test_apply_update_on_rules_dependent_already_exists() {
    let config = config_with(&[("crates/*", &["bridge/node"][..])]);

    let mut update_map = UpdateMap::new();
    update_map.insert_new(
        "crates/core".to_string(),
        UpdateType::Minor,
        vec![ChangePackResultLog::new(UpdateType::Minor, "Update core".to_string())],
    );
    update_map.insert_new(
        "bridge/node".to_string(),
        UpdateType::Major,
        vec![ChangePackResultLog::new(UpdateType::Major, "Update bridge".to_string())],
    );

    apply_update_on_rules(&mut update_map, &config).unwrap();

    assert_eq!(update_map.len(), 2);
    assert_eq!(
        update_type(&update_map, "bridge/node"),
        UpdateType::Major
    );
}

#[test]
fn test_apply_update_on_rules_names_lexicographically_first_trigger() {
    let config = config_with(&[("crates/core", &["bridge/node"][..]), ("crates/*", &["bridge/node"][..])]);

    let mut update_map = UpdateMap::new();
    update_map.insert_new(
        "crates/core".to_string(),
        UpdateType::Minor,
        vec![ChangePackResultLog::new(UpdateType::Minor, "Update core".to_string())],
    );

    apply_update_on_rules(&mut update_map, &config).unwrap();

    assert_eq!(update_map.len(), 2);
    let dependent = update_map.get("bridge/node").unwrap();
    assert_eq!(dependent.update_type, UpdateType::Patch);
    assert_eq!(dependent.logs.len(), 1);

    let first_trigger = &config.update_on[0].trigger;
    assert_eq!(first_trigger, "crates/*");
    assert_eq!(
        dependent.logs[0].note,
        format!("Auto-update triggered by updateOn rule: {first_trigger}")
    );
}

#[test]
fn test_apply_update_on_rules_reaches_chained_rules() {
    let config = config_with(&[
        ("packages/a", &["packages/b"][..]),
        ("packages/b", &["packages/c"][..]),
    ]);
    let mut update_map = UpdateMap::new();
    update_map.insert_new("packages/a".to_string(), UpdateType::Minor, vec![]);

    apply_update_on_rules(&mut update_map, &config).unwrap();

    assert_eq!(update_map.len(), 3);
    assert_eq!(update_type(&update_map, "packages/b"), UpdateType::Patch);
    assert_eq!(update_type(&update_map, "packages/c"), UpdateType::Patch);
}

#[test]
fn test_apply_update_on_rules_reaches_diamond_once() {
    let config = config_with(&[
        ("packages/a", &["packages/b", "packages/c"][..]),
        ("packages/b", &["packages/d"][..]),
        ("packages/c", &["packages/d"][..]),
    ]);
    let mut update_map = UpdateMap::new();
    update_map.insert_new("packages/a".to_string(), UpdateType::Minor, vec![]);

    apply_update_on_rules(&mut update_map, &config).unwrap();

    assert_eq!(update_map.len(), 4);
    let diamond = update_map.get("packages/d").unwrap();
    assert_eq!(diamond.logs.len(), 1);
    assert_eq!(
        diamond.logs[0].note,
        "Auto-update triggered by updateOn rule: packages/b"
    );
}

#[test]
fn test_apply_update_on_rules_terminates_cycles() {
    let config = config_with(&[
        ("packages/a", &["packages/b"][..]),
        ("packages/b", &["packages/a"][..]),
    ]);
    let mut update_map = UpdateMap::new();
    update_map.insert_new("packages/a".to_string(), UpdateType::Minor, vec![]);

    apply_update_on_rules(&mut update_map, &config).unwrap();

    assert_eq!(update_map.len(), 2);
    assert_eq!(update_type(&update_map, "packages/a"), UpdateType::Minor);
    assert_eq!(update_type(&update_map, "packages/b"), UpdateType::Patch);
}

#[test]
fn test_apply_update_on_rules_propagates_from_already_present_dependent() {
    let config = config_with(&[
        ("packages/a", &["packages/b"][..]),
        ("packages/b", &["packages/c"][..]),
    ]);
    let mut update_map = UpdateMap::new();
    update_map.insert_new("packages/a".to_string(), UpdateType::Minor, vec![]);
    update_map.insert_new("packages/b".to_string(), UpdateType::Major, vec![]);

    apply_update_on_rules(&mut update_map, &config).unwrap();

    assert_eq!(update_map.len(), 3);
    assert_eq!(update_type(&update_map, "packages/b"), UpdateType::Major);
    assert_eq!(update_type(&update_map, "packages/c"), UpdateType::Patch);
}
