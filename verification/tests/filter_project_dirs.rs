use changepacks::config::Config;
use changepacks::filter_project_dirs::{find_project_dirs, FilterError};
use changepacks::find_project_dirs::join_path;
use changepacks::finder::{FinderError, ManifestRead, RustProjectFinder};
use changepacks::path_map::PathMap;

const ROOT: &str = "/work/repo";
const FILES: [(&str, &str); 2] = [
    (
        "core/Cargo.toml",
        "[package]\nname = \"core\"\nversion = \"1.0.0\"\n",
    ),
    ("cli/Cargo.toml", "[package]\nversion = \"1.0.0\"\n"),
];

type Answer = Result<Vec<Option<String>>, String>;

fn listed(paths: &[Option<&str>]) -> Answer {
    Ok(paths
        .iter()
        .map(|path| path.map(|path| path.to_string()))
        .collect())
}

fn find(
    ignore: &[&str],
    origin: Option<&str>,
    status: &Answer,
    changes: &Answer,
) -> Result<RustProjectFinder, FilterError> {
    let mut config = Config::new("main");
    config.ignore = ignore.iter().map(|line| line.to_string()).collect();
    let index: Vec<String> = FILES.iter().map(|(path, _)| path.to_string()).collect();
    let mut finder = RustProjectFinder::new();
    let mut reads = PathMap::new();
    loop {
        match find_project_dirs(
            &mut finder, ROOT, &config, &index, &reads, origin, status, changes,
        ) {
            Err(FilterError::Manifest(FinderError::Unread { path })) => {
                let read = match FILES.iter().find(|(file, _)| join_path(ROOT, file) == path) {
                    Some((_, content)) => ManifestRead::Content(content.to_string()),
                    None => ManifestRead::Missing,
                };
                reads.insert(path, read);
            }
            Err(error) => return Err(error),
            Ok(()) => return Ok(finder),
        }
    }
}

fn changed(finder: &RustProjectFinder) -> Vec<String> {
    let mut paths: Vec<String> = finder
        .projects
        .entries
        .iter()
        .filter(|entry| entry.value.is_changed())
        .map(|entry| entry.value.relative_path().to_string())
        .collect();
    paths.sort();
    paths
}

#[test]
fn filter_project_dirs_test_find_project_dirs_basic() {
    let finder = find(&[], None, &listed(&[]), &listed(&[])).unwrap();
    assert_eq!(finder.projects.entries.len(), 2);
    assert!(changed(&finder).is_empty());
}

#[test]
fn filter_project_dirs_test_find_project_dirs_with_ignore() {
    let finder = find(&["cli/**"], None, &listed(&[]), &listed(&[])).unwrap();
    assert_eq!(finder.projects.entries.len(), 1);
    assert_eq!(finder.projects.entries[0].value.name(), Some("core"));
}

#[test]
fn filter_project_dirs_test_find_project_dirs_sets_name_from_remote_origin() {
    let finder = find(
        &["core/**"],
        Some("/testuser/my-cool-repo.git"),
        &listed(&[]),
        &listed(&[]),
    )
    .unwrap();
    assert_eq!(
        finder.projects.entries[0].value.name(),
        Some("my-cool-repo")
    );
}

#[test]
fn every_readable_path_counts_whether_ignored_or_not() {
    let finder = find(
        &["core/src/**"],
        None,
        &listed(&[None, Some("core/src/lib.rs")]),
        &listed(&[Some("core/src/lib.rs"), None, Some(".changepacks/x")]),
    )
    .unwrap();
    assert_eq!(changed(&finder), vec!["core/Cargo.toml"]);
    let finder = find(
        &[],
        None,
        &listed(&[Some("core/a")]),
        &listed(&[Some("cli/b")]),
    )
    .unwrap();
    assert_eq!(changed(&finder), vec!["cli/Cargo.toml", "core/Cargo.toml"]);
}

#[test]
fn the_worktree_is_asked_before_the_base_branch() {
    let down: Answer = Err("no status".to_string());
    let missing: Answer = Err("no base".to_string());
    assert_eq!(
        find(&[], None, &down, &missing).unwrap_err().message(),
        "no status"
    );
    assert_eq!(
        find(&[], None, &listed(&[]), &missing)
            .unwrap_err()
            .message(),
        "no base"
    );
}

#[test]
fn a_malformed_ignore_pattern_comes_first() {
    let down: Answer = Err("no status".to_string());
    let error = find(&["{a"], None, &down, &down).unwrap_err();
    assert!(matches!(error, FilterError::Ignore(_)));
    assert!(error.message().contains("{a"));
}
