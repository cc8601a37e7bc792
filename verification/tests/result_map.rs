use changepacks::gen_changepack_result_map::{
    gen_changepack_result_map, ChangePackResult, ResultError, ResultMap,
};
use changepacks::package::RustPackage;
use changepacks::project::Project;
use changepacks::update_map::{ChangePackResultLog, UpdateMap};
use changepacks::update_type::UpdateType;

fn create_test_project(name: &str, version: &str, directory: &str, is_changed: bool) -> Project {
    let mut package = RustPackage::new(
        Some(name.to_string()),
        Some(version.to_string()),
        format!("/repo/{directory}/package.json"),
        format!("{directory}/package.json"),
    );
    package.set_changed(is_changed);
    Project::Package(package)
}

fn updates(path: &str, update_type: UpdateType, notes: &[&str]) -> UpdateMap {
    let mut map = UpdateMap::new();
    let logs = notes
        .iter()
        .map(|note| ChangePackResultLog::new(update_type, note.to_string()))
        .collect();
    map.insert_new(path.to_string(), update_type, logs);
    map
}

fn get<'a>(map: &'a ResultMap, path: &str) -> &'a ChangePackResult {
    map.entries.iter().find(|result| result.path == path).unwrap()
}

#[test]
fn test_gen_changepack_result_map_with_update_result() {
    let project = create_test_project("test-package", "1.0.0", "project1", true);
    let update_result = updates("project1/package.json", UpdateType::Patch, &["Fixed a bug"]);

    let result = gen_changepack_result_map(&[&project], "/repo", &update_result).unwrap();

    assert_eq!(result.entries.len(), 1);
    let change_result = get(&result, "project1/package.json");
    assert_eq!(change_result.version.as_deref(), Some("1.0.0"));
    assert_eq!(change_result.next_version.as_deref(), Some("1.0.1"));
    assert_eq!(change_result.name.as_deref(), Some("test-package"));
    assert!(change_result.changed);
    assert_eq!(change_result.logs.len(), 1);
}

#[test]
fn test_gen_changepack_result_map_without_update_result() {
    let project = create_test_project("test-package-2", "2.5.3", "project2", false);

    let result = gen_changepack_result_map(&[&project], "/repo", &UpdateMap::new()).unwrap();

    assert_eq!(result.entries.len(), 1);
    let change_result = get(&result, "project2/package.json");
    assert_eq!(change_result.version.as_deref(), Some("2.5.3"));
    assert_eq!(change_result.next_version, None);
    assert_eq!(change_result.name.as_deref(), Some("test-package-2"));
    assert!(!change_result.changed);
    assert_eq!(change_result.logs.len(), 0);
}

#[test]
fn test_gen_changepack_result_map_multiple_projects() {
    let project1 = create_test_project("package1", "1.0.0", "project1", true);
    let project2 = create_test_project("package2", "2.0.0", "project2", false);
    let update_result = updates(
        "project1/package.json",
        UpdateType::Minor,
        &["Added new feature"],
    );

    let result =
        gen_changepack_result_map(&[&project1, &project2], "/repo", &update_result).unwrap();

    assert_eq!(result.entries.len(), 2);
    let result1 = get(&result, "project1/package.json");
    assert_eq!(result1.version.as_deref(), Some("1.0.0"));
    assert_eq!(result1.next_version.as_deref(), Some("1.1.0"));
    assert_eq!(result1.logs.len(), 1);
    let result2 = get(&result, "project2/package.json");
    assert_eq!(result2.version.as_deref(), Some("2.0.0"));
    assert_eq!(result2.next_version, None);
    assert_eq!(result2.logs.len(), 0);
}

#[test]
fn test_gen_changepack_result_map_major_update() {
    let project = create_test_project("test-package", "1.2.3", "project3", true);
    let update_result = updates("project3/package.json", UpdateType::Major, &["Breaking change"]);

    let result = gen_changepack_result_map(&[&project], "/repo", &update_result).unwrap();

    let change_result = get(&result, "project3/package.json");
    assert_eq!(change_result.version.as_deref(), Some("1.2.3"));
    assert_eq!(change_result.next_version.as_deref(), Some("2.0.0"));
}

#[test]
fn test_gen_changepack_result_map_project_without_version() {
    let project = create_test_project("test-package", "0.0.0", "project4", false);
    let update_result = updates("project4/package.json", UpdateType::Patch, &["Initial release"]);

    let result = gen_changepack_result_map(&[&project], "/repo", &update_result).unwrap();

    let change_result = get(&result, "project4/package.json");
    assert_eq!(change_result.version.as_deref(), Some("0.0.0"));
    assert_eq!(change_result.next_version.as_deref(), Some("0.0.1"));
}

#[test]
fn test_gen_changepack_result_map_multiple_logs() {
    let project = create_test_project("test-package", "1.0.0", "project5", true);
    let update_result = updates(
        "project5/package.json",
        UpdateType::Minor,
        &["Added feature A", "Added feature B", "Improved performance"],
    );

    let result = gen_changepack_result_map(&[&project], "/repo", &update_result).unwrap();

    assert_eq!(get(&result, "project5/package.json").logs.len(), 3);
}

#[test]
fn test_gen_changepack_result_map_empty_projects() {
    let projects: Vec<&Project> = vec![];
    let result = gen_changepack_result_map(&projects, "/repo", &UpdateMap::new()).unwrap();

    assert!(result.entries.is_empty());
}

#[test]
fn test_gen_changepack_result_map_no_matching_update_entry() {
    let project = create_test_project("pkg-a", "1.0.0", "projectA", false);
    let update_result = updates(
        "other-project/package.json",
        UpdateType::Patch,
        &["unrelated fix"],
    );

    let result = gen_changepack_result_map(&[&project], "/repo", &update_result).unwrap();

    assert_eq!(result.entries.len(), 1);
    assert_eq!(get(&result, "projectA/package.json").next_version, None);
    assert_eq!(update_result.len(), 1);
}

#[test]
fn test_gen_changepack_result_map_project_with_empty_version() {
    let project = create_test_project("empty-ver-pkg", "", "project_empty_ver", false);
    let update_result = updates("project_empty_ver/package.json", UpdateType::Patch, &["test"]);

    let err = gen_changepack_result_map(&[&project], "/repo", &update_result)
        .expect_err("empty version must fail the bump");
    assert!(matches!(err, ResultError::Version { .. }));
    assert_eq!(
        err.message(),
        "Failed to compute next version for project_empty_ver/package.json: Invalid version: "
    );
}

#[test]
fn a_project_outside_the_repository_is_refused() {
    let project = create_test_project("a", "1.0.0", "a", false);
    let err = gen_changepack_result_map(&[&project], "/elsewhere", &UpdateMap::new())
        .expect_err("a project outside the repository must fail");
    assert_eq!(
        err.message(),
        "Project /repo/a/package.json is outside the repository"
    );
}

#[test]
fn results_come_in_the_order_of_their_paths() {
    let directories = ["b/c", "a-b", "a", "a/z", "b"];
    let projects: Vec<Project> = directories
        .iter()
        .map(|directory| create_test_project(directory, "1.0.0", directory, false))
        .collect();
    let list: Vec<&Project> = projects.iter().collect();
    let result = gen_changepack_result_map(&list, "/repo", &UpdateMap::new()).unwrap();
    let paths: Vec<&str> = result.entries.iter().map(|r| r.path.as_str()).collect();
    assert_eq!(
        paths,
        vec![
            "a/package.json",
            "a/z/package.json",
            "a-b/package.json",
            "b/c/package.json",
            "b/package.json",
        ]
    );
}
