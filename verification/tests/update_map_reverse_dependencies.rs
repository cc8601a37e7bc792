use changepacks::apply_reverse_dependencies::apply_reverse_dependencies;
use changepacks::package::RustPackage;
use changepacks::project::Project;
use changepacks::update_map::{ChangePackResultLog, UpdateMap};
use changepacks::update_type::UpdateType;

fn create_project(name: &str, dependencies: Vec<&str>) -> Project {
    let mut package = RustPackage::new(
        Some(name.to_string()),
        Some("1.0.0".to_string()),
        format!("/test/{name}/package.json"),
        format!("{name}/package.json"),
    );
    for dependency in dependencies {
        package.add_dependency(dependency);
    }
    Project::Package(package)
}

fn insert_reverse_dependency_seed(update_map: &mut UpdateMap, name: &str, update_type: UpdateType) {
    update_map.insert_new(
        format!("{name}/package.json"),
        update_type,
        vec![ChangePackResultLog::new(update_type, format!("Update {name}"))],
    );
}

fn reverse_dependency_order_variant(variant: usize) -> UpdateMap {
    let alpha = create_project("alpha", vec![]);
    let zeta = create_project("zeta", vec![]);
    let bridge_a = create_project(
        "bridge-a",
        if matches!(variant, 0 | 2) {
            vec!["zeta", "alpha"]
        } else {
            vec!["alpha", "zeta"]
        },
    );
    let bridge_z = create_project(
        "bridge-z",
        if matches!(variant, 0 | 3) {
            vec!["alpha", "zeta"]
        } else {
            vec!["zeta", "alpha"]
        },
    );
    let app = create_project(
        "app",
        if matches!(variant, 0 | 1) {
            vec!["bridge-z", "bridge-a"]
        } else {
            vec!["bridge-a", "bridge-z"]
        },
    );
    let projects: Vec<&Project> = match variant {
        0 => vec![&zeta, &bridge_z, &alpha, &app, &bridge_a],
        1 => vec![&bridge_a, &alpha, &app, &zeta, &bridge_z],
        2 => vec![&app, &bridge_z, &zeta, &bridge_a, &alpha],
        3 => vec![&alpha, &bridge_a, &zeta, &bridge_z, &app],
        _ => unreachable!("test variant is in range"),
    };

    let mut update_map = UpdateMap::new();
    if matches!(variant, 0 | 2) {
        insert_reverse_dependency_seed(&mut update_map, "alpha", UpdateType::Minor);
        insert_reverse_dependency_seed(&mut update_map, "zeta", UpdateType::Major);
    } else {
        insert_reverse_dependency_seed(&mut update_map, "zeta", UpdateType::Major);
        insert_reverse_dependency_seed(&mut update_map, "alpha", UpdateType::Minor);
    }

    apply_reverse_dependencies(&mut update_map, &projects, "/test").unwrap();
    update_map
}

fn update_type(update_map: &UpdateMap, path: &str) -> UpdateType {
    update_map.get(path).unwrap().update_type
}

fn result_note(update_map: &UpdateMap, path: &str) -> String {
    update_map.get(path).unwrap().logs[0].note.clone()
}

fn gen_update_map_test_apply_reverse_dependencies_empty_update_map_is_noop() {
    let core = create_project("core", vec![]);
    let cli = create_project("cli", vec!["core"]);
    let projects: Vec<&Project> = vec![&core, &cli];
    let mut update_map = UpdateMap::new();

    apply_reverse_dependencies(&mut update_map, &projects, "/test").unwrap();

    assert!(update_map.is_empty());
}

#[test]
fn gen_update_map_test_apply_reverse_dependencies_rejects_project_outside_repo_root() {
    let core = create_project("core", vec![]);
    let mut outside_package = RustPackage::new(
        Some("outside".to_string()),
        Some("1.0.0".to_string()),
        "/outside/package.json".to_string(),
        "outside/package.json".to_string(),
    );
    outside_package.add_dependency("core");
    let outside = Project::Package(outside_package);
    let projects: Vec<&Project> = vec![&core, &outside];
    let mut update_map = UpdateMap::new();
    update_map.insert_new("core/package.json".to_string(), UpdateType::Minor, vec![]);

    let error = apply_reverse_dependencies(&mut update_map, &projects, "/test")
        .expect_err("an out-of-root project must fail reverse dependency traversal");

    assert!(error.message().contains("/outside/package.json"));
}

#[test]
fn gen_update_map_test_apply_reverse_dependencies_basic() {
    // Setup: core has no deps, cli depends on core
    let core = create_project("core", vec![]);
    let cli = create_project("cli", vec!["core"]);

    let projects: Vec<&Project> = vec![&core, &cli];
    let repo_root = "/test";

    // Core is being updated
    let mut update_map = UpdateMap::new();
    update_map.insert_new(
        "core/package.json".to_string(),
        UpdateType::Minor,
        vec![ChangePackResultLog::new(UpdateType::Minor, "Update core".to_string())],
    );

    apply_reverse_dependencies(&mut update_map, &projects, repo_root).unwrap();

    // cli should be added as PATCH update
    assert_eq!(update_map.len(), 2);
    assert!(update_map.contains("cli/package.json"));
    assert_eq!(
        update_type(&update_map, "cli/package.json"),
        UpdateType::Patch
    );
    assert_eq!(
        result_note(&update_map, "cli/package.json"),
        "Auto-update: depends on 'core' via a local workspace dependency"
    );
}

#[test]
fn gen_update_map_test_apply_reverse_dependencies_transitive() {
    // Setup: core -> utils -> cli (cli depends on utils, utils depends on core)
    let core = create_project("core", vec![]);
    let utils = create_project("utils", vec!["core"]);
    let cli = create_project("cli", vec!["utils"]);

    let projects: Vec<&Project> = vec![&core, &utils, &cli];
    let repo_root = "/test";

    // Core is being updated
    let mut update_map = UpdateMap::new();
    update_map.insert_new(
        "core/package.json".to_string(),
        UpdateType::Minor,
        vec![ChangePackResultLog::new(UpdateType::Minor, "Update core".to_string())],
    );

    apply_reverse_dependencies(&mut update_map, &projects, repo_root).unwrap();

    // Both utils and cli should be added as PATCH updates (transitive)
    assert_eq!(update_map.len(), 3);
    assert!(update_map.contains("utils/package.json"));
    assert!(update_map.contains("cli/package.json"));
    assert_eq!(
        update_type(&update_map, "utils/package.json"),
        UpdateType::Patch
    );
    assert_eq!(
        update_type(&update_map, "cli/package.json"),
        UpdateType::Patch
    );
}

#[test]
fn gen_update_map_test_apply_reverse_dependencies_no_deps() {
    // Setup: two independent packages
    let core = create_project("core", vec![]);
    let utils = create_project("utils", vec![]);

    let projects: Vec<&Project> = vec![&core, &utils];
    let repo_root = "/test";

    // Core is being updated
    let mut update_map = UpdateMap::new();
    update_map.insert_new(
        "core/package.json".to_string(),
        UpdateType::Minor,
        vec![ChangePackResultLog::new(UpdateType::Minor, "Update core".to_string())],
    );

    apply_reverse_dependencies(&mut update_map, &projects, repo_root).unwrap();

    // utils should NOT be added (no dependency on core)
    assert_eq!(update_map.len(), 1);
    assert!(!update_map.contains("utils/package.json"));
}

#[test]
fn gen_update_map_test_apply_reverse_dependencies_already_in_update_map() {
    // Setup: cli depends on core, but cli is already in update_map
    let core = create_project("core", vec![]);
    let cli = create_project("cli", vec!["core"]);

    let projects: Vec<&Project> = vec![&core, &cli];
    let repo_root = "/test";

    // Both core and cli are already being updated
    let mut update_map = UpdateMap::new();
    update_map.insert_new(
        "core/package.json".to_string(),
        UpdateType::Minor,
        vec![ChangePackResultLog::new(UpdateType::Minor, "Update core".to_string())],
    );
    update_map.insert_new(
        "cli/package.json".to_string(),
        UpdateType::Major,
        vec![ChangePackResultLog::new(UpdateType::Major, "Update cli".to_string())],
    );

    apply_reverse_dependencies(&mut update_map, &projects, repo_root).unwrap();

    // cli should remain Major (not overwritten to Patch)
    assert_eq!(update_map.len(), 2);
    assert_eq!(
        update_type(&update_map, "cli/package.json"),
        UpdateType::Major
    );
}

#[test]
fn gen_update_map_test_apply_reverse_dependencies_diamond() {
    // Diamond pattern: core <- (utils, helpers) <- cli
    // cli depends on both utils and helpers, both depend on core
    let core = create_project("core", vec![]);
    let utils = create_project("utils", vec!["core"]);
    let helpers = create_project("helpers", vec!["core"]);
    let cli = create_project("cli", vec!["utils", "helpers"]);

    let projects: Vec<&Project> = vec![&core, &utils, &helpers, &cli];
    let repo_root = "/test";

    // Core is being updated
    let mut update_map = UpdateMap::new();
    update_map.insert_new(
        "core/package.json".to_string(),
        UpdateType::Minor,
        vec![ChangePackResultLog::new(UpdateType::Minor, "Update core".to_string())],
    );

    apply_reverse_dependencies(&mut update_map, &projects, repo_root).unwrap();

    // All packages should be updated
    assert_eq!(update_map.len(), 4);
    assert!(update_map.contains("utils/package.json"));
    assert!(update_map.contains("helpers/package.json"));
    assert!(update_map.contains("cli/package.json"));
}

#[test]
fn gen_update_map_test_apply_reverse_dependencies_missing_dependency() {
    // cli depends on "missing" package that doesn't exist in projects
    let cli = create_project("cli", vec!["missing"]);

    let projects: Vec<&Project> = vec![&cli];
    let repo_root = "/test";

    let mut update_map = UpdateMap::new();
    update_map.insert_new(
        "other/package.json".to_string(),
        UpdateType::Minor,
        vec![ChangePackResultLog::new(UpdateType::Minor, "Update other".to_string())],
    );

    apply_reverse_dependencies(&mut update_map, &projects, repo_root).unwrap();

    // No changes, missing dependency is ignored
    assert_eq!(update_map.len(), 1);
}

#[test]
fn gen_update_map_test_apply_reverse_dependencies_rejects_referenced_duplicate_names() {
    let mut shared_a = create_project("zeta", vec![]);
    shared_a.set_name("shared".to_string());
    let mut shared_b = create_project("alpha", vec![]);
    shared_b.set_name("shared".to_string());
    let app = create_project("app", vec!["shared"]);
    let projects: Vec<&Project> = vec![&shared_a, &app, &shared_b];
    let repo_root = "/test";

    let mut update_map = UpdateMap::new();
    update_map.insert_new("alpha/package.json".to_string(), UpdateType::Minor, vec![]);
    let error = apply_reverse_dependencies(&mut update_map, &projects, repo_root)
        .expect_err("a referenced duplicate project name must be ambiguous");

    assert_eq!(
        error.message(),
        "ambiguous dependency `shared`: candidates: alpha/package.json, zeta/package.json"
    );
}

#[test]
fn gen_update_map_test_apply_reverse_dependencies_empty_map_reports_ambiguity_deterministically() {
    let mut shared_zeta = create_project("zeta", vec![]);
    shared_zeta.set_name("shared".to_string());
    let mut shared_alpha = create_project("alpha", vec![]);
    shared_alpha.set_name("shared".to_string());
    let app = create_project("app", vec!["shared"]);
    let permutations = [
        vec![&shared_zeta, &app, &shared_alpha],
        vec![&shared_alpha, &shared_zeta, &app],
        vec![&app, &shared_alpha, &shared_zeta],
    ];
    let expected =
        "ambiguous dependency `shared`: candidates: alpha/package.json, zeta/package.json";

    let mut messages = Vec::new();
    for projects in permutations {
        let mut update_map = UpdateMap::new();
        let error = apply_reverse_dependencies(&mut update_map, &projects, "/test")
            .expect_err("referenced duplicate names must be ambiguous for an empty map");
        messages.push(error.message());
    }

    assert!(messages.iter().all(|message| message == expected));
    assert!(messages.windows(2).all(|pair| pair[0] == pair[1]));
}

#[test]
fn gen_update_map_test_apply_reverse_dependencies_allows_unreferenced_duplicate_names() {
    let mut shared_a = create_project("zeta", vec![]);
    shared_a.set_name("shared".to_string());
    let mut shared_b = create_project("alpha", vec![]);
    shared_b.set_name("shared".to_string());
    let app = create_project("app", vec![]);
    let projects: Vec<&Project> = vec![&shared_a, &app, &shared_b];
    let mut update_map = UpdateMap::new();
    update_map.insert_new("alpha/package.json".to_string(), UpdateType::Minor, vec![]);

    apply_reverse_dependencies(&mut update_map, &projects, "/test").unwrap();

    assert_eq!(update_map.len(), 1);
}

#[test]
fn gen_update_map_test_apply_reverse_dependencies_unique_name_propagates_directly() {
    let core = create_project("core", vec![]);
    let cli = create_project("cli", vec!["core"]);
    let projects: Vec<&Project> = vec![&core, &cli];
    let mut update_map = UpdateMap::new();
    update_map.insert_new("core/package.json".to_string(), UpdateType::Minor, vec![]);

    apply_reverse_dependencies(&mut update_map, &projects, "/test").unwrap();

    assert_eq!(
        update_type(&update_map, "cli/package.json"),
        UpdateType::Patch
    );
}

#[test]
fn gen_update_map_test_apply_reverse_dependencies_unique_names_propagate_transitively() {
    let core = create_project("core", vec![]);
    let utils = create_project("utils", vec!["core"]);
    let cli = create_project("cli", vec!["utils"]);
    let projects: Vec<&Project> = vec![&core, &utils, &cli];
    let mut update_map = UpdateMap::new();
    update_map.insert_new("core/package.json".to_string(), UpdateType::Minor, vec![]);

    apply_reverse_dependencies(&mut update_map, &projects, "/test").unwrap();

    assert_eq!(
        update_type(&update_map, "utils/package.json"),
        UpdateType::Patch
    );
    assert_eq!(
        update_type(&update_map, "cli/package.json"),
        UpdateType::Patch
    );
}

#[test]
fn gen_update_map_test_apply_reverse_dependencies_chooses_smallest_trigger_deterministically() {
    let expected_alpha_note =
        "Auto-update: depends on 'alpha' via a local workspace dependency";
    let expected_bridge_note =
        "Auto-update: depends on 'bridge-a' via a local workspace dependency";

    for variant in 0..4 {
        let update_map = reverse_dependency_order_variant(variant);

        assert_eq!(
            update_type(&update_map, "alpha/package.json"),
            UpdateType::Minor,
            "variant {variant}"
        );
        assert_eq!(
            update_type(&update_map, "zeta/package.json"),
            UpdateType::Major,
            "variant {variant}"
        );
        for path in ["bridge-a/package.json", "bridge-z/package.json"] {
            assert_eq!(
                update_type(&update_map, path),
                UpdateType::Patch,
                "variant {variant}, path {path}"
            );
            assert_eq!(
                result_note(&update_map, path),
                expected_alpha_note,
                "variant {variant}, path {path}"
            );
        }
        assert_eq!(
            update_type(&update_map, "app/package.json"),
            UpdateType::Patch,
            "variant {variant}"
        );
        assert_eq!(
            result_note(&update_map, "app/package.json"),
            expected_bridge_note,
            "variant {variant}"
        );
    }
}

#[test]
fn gen_update_map_test_apply_reverse_dependencies_serializes_equivalent_orders_identically() {
    let serialized: Vec<_> = (0..4)
        .map(|variant| format!("{:?}", reverse_dependency_order_variant(variant).entries))
        .collect();

    assert!(
        serialized.windows(2).all(|pair| pair[0] == pair[1]),
        "equivalent update maps must have byte-identical update types, notes, and ordering"
    );
}
