use changepacks::config::Config;
use changepacks::find_project_dirs::{
    base_reference_of, check_changed_many, collect_dispatchable_paths,
    contains_changepacks_component, find_project_dirs, has_extension_ignore_ascii_case, join_path,
    missing_base_message, project_files_can_visit_path, repository_name_of,
    should_dispatch_change, DiscoveryError, TreeChange,
};
use changepacks::finder::{FinderError, ManifestRead, RustProjectFinder};
use changepacks::ignore_patterns::{build_config_gitignore, config_ignores_path, IgnoreError};
use changepacks::path_map::PathMap;
use changepacks::project::Project;

const ROOT: &str = "/work/repo";

fn config(ignore: &[&str]) -> Config {
    let mut config = Config::new("main");
    config.ignore = ignore.iter().map(|line| line.to_string()).collect();
    config
}

/// What a repository holds and answers.
struct Repository {
    files: Vec<(&'static str, &'static str)>,
    origin: Option<&'static str>,
    changes: Result<Vec<TreeChange>, String>,
    status: Result<Vec<Result<String, String>>, String>,
}

fn repository(files: &[(&'static str, &'static str)]) -> Repository {
    Repository {
        files: files.to_vec(),
        origin: None,
        changes: Ok(vec![]),
        status: Ok(vec![]),
    }
}

fn leaf(path: &str) -> TreeChange {
    TreeChange {
        path: Ok(path.to_string()),
        is_tree: false,
        source_is_tree: false,
    }
}

fn listed(paths: &[&str]) -> Result<Vec<Result<String, String>>, String> {
    Ok(paths.iter().map(|path| Ok(path.to_string())).collect())
}

fn find(repository: &Repository, config: &Config) -> Result<RustProjectFinder, DiscoveryError> {
    let mut finder = RustProjectFinder::new();
    let index: Vec<String> = repository
        .files
        .iter()
        .map(|(path, _)| path.to_string())
        .collect();
    let mut reads = PathMap::new();
    loop {
        match find_project_dirs(
            &mut finder,
            ROOT,
            config,
            &index,
            &reads,
            repository.origin,
            &repository.changes,
            &repository.status,
        ) {
            Err(DiscoveryError::Manifest(FinderError::Unread { path })) => {
                let content = repository
                    .files
                    .iter()
                    .find(|(file, _)| join_path(ROOT, file) == path);
                let read = match content {
                    Some((_, content)) => ManifestRead::Content(content.to_string()),
                    None => ManifestRead::Missing,
                };
                reads.insert(path, read);
            }
            Err(error) => return Err(error),
            Ok(()) => return Ok(finder),
        }
    }
}

fn project<'a>(finder: &'a RustProjectFinder, relative_path: &str) -> &'a Project {
    let entries = &finder.projects.entries;
    &entries
        .iter()
        .find(|entry| entry.value.relative_path() == relative_path)
        .unwrap()
        .value
}

const CORE: &str = "[package]\nname = \"core\"\nversion = \"1.0.0\"\n";
const CLI: &str = "[package]\nname = \"cli\"\nversion = \"1.0.0\"\n";
const NAMELESS: &str = "[package]\nversion = \"1.0.0\"\n";

#[test]
fn test_finder_can_visit_path_matches_manifest_name() {
    let project_files = ["package.json"];

    assert!(project_files_can_visit_path(
        &project_files,
        "apps/a/package.json",
        "package.json"
    ));
    assert!(!project_files_can_visit_path(
        &project_files,
        "apps/a/index.ts",
        "index.ts"
    ));
}

#[test]
fn test_finder_can_visit_path_matches_csharp_extension_case_insensitive() {
    let project_files = [".csproj"];

    assert!(project_files_can_visit_path(
        &project_files,
        "src/App.csproj",
        "App.csproj"
    ));
    assert!(project_files_can_visit_path(
        &project_files,
        "src/App.CSPROJ",
        "App.CSPROJ"
    ));
    assert!(project_files_can_visit_path(
        &project_files,
        "src/App.CsProj",
        "App.CsProj"
    ));
    assert!(!project_files_can_visit_path(
        &project_files,
        "src/App.sln",
        "App.sln"
    ));
}

// The extension form is scoped to the extension: it must NOT sweep up an
// unrelated manifest that another finder owns.
#[test]
fn test_finder_can_visit_path_extension_entry_ignores_other_manifest_names() {
    let project_files = [".csproj"];

    for (path, file_name) in [
        ("apps/a/package.json", "package.json"),
        ("crates/a/Cargo.toml", "Cargo.toml"),
        ("src/csproj", "csproj"),
    ] {
        assert!(
            !project_files_can_visit_path(&project_files, path, file_name),
            "extension entry \".csproj\" must not claim {path}"
        );
    }
}

// The bare-file-name form is an exact, case-sensitive whole-name compare.
#[test]
fn test_finder_can_visit_path_plain_name_entry_matches_only_exact_name() {
    let project_files = ["package.json"];

    assert!(project_files_can_visit_path(
        &project_files,
        "apps/a/package.json",
        "package.json"
    ));

    for (path, file_name) in [
        ("apps/a/settings.package.json", "settings.package.json"),
        ("apps/a/package.json.bak", "package.json.bak"),
        ("apps/a/tsconfig.json", "tsconfig.json"),
        ("apps/a/Package.json", "Package.json"),
    ] {
        assert!(
            !project_files_can_visit_path(&project_files, path, file_name),
            "file-name entry \"package.json\" must not claim {path}"
        );
    }
}

#[test]
fn changed_path_collection_propagates_injected_status_error() {
    let status_paths = vec![Err(
        "Failed to enumerate worktree status entry: injected status enumeration failure"
            .to_string(),
    )];

    let error = collect_dispatchable_paths(
        &status_paths,
        None,
        "Failed to enumerate worktree status paths",
    )
    .expect_err("injected status error must reach the caller")
    .message();

    assert!(
        error.contains("Failed to enumerate worktree status paths"),
        "unexpected error context: {error}"
    );
    assert!(
        error.contains("Failed to enumerate worktree status entry"),
        "missing status-entry context: {error}"
    );
}

#[test]
fn changed_path_collection_propagates_injected_diff_path_error() {
    let diff_paths = vec![Err(
        "Failed to convert changed tree path: injected path conversion failure".to_string(),
    )];

    let message =
        collect_dispatchable_paths(&diff_paths, None, "Failed to enumerate changed tree paths")
            .expect_err("injected diff path error must reach the caller")
            .message();

    assert!(message.contains("Failed to enumerate changed tree paths"));
    assert!(message.contains("Failed to convert changed tree path"));
}

#[test]
fn the_first_path_that_cannot_be_listed_is_reported() {
    let entries = vec![
        Ok("a".to_string()),
        Err("first".to_string()),
        Err("second".to_string()),
    ];
    let error = collect_dispatchable_paths(&entries, None, "context").unwrap_err();
    assert_eq!(error.message(), "context: first");
}

#[test]
fn own_and_ignored_files_are_not_dispatched() {
    let config = config(&["docs/**"]);
    let gitignore = build_config_gitignore(ROOT, &config).unwrap();
    let entries = vec![
        Ok("crates/core/src/lib.rs".to_string()),
        Ok(".changepacks/changepack_log_1.json".to_string()),
        Ok("docs/guide.md".to_string()),
        Ok("crates/.changepacks/x".to_string()),
    ];
    assert_eq!(
        collect_dispatchable_paths(&entries, gitignore.as_ref(), "context").unwrap(),
        vec!["crates/core/src/lib.rs"]
    );
    assert!(contains_changepacks_component("a/.changepacks/b"));
    assert!(!contains_changepacks_component("a/x.changepacks/b"));
    assert!(!should_dispatch_change(gitignore.as_ref(), "docs/a/b.md"));
}

#[test]
fn extensions_follow_the_last_dot() {
    assert!(has_extension_ignore_ascii_case("a/b.tar.GZ", "gz"));
    assert!(!has_extension_ignore_ascii_case("a/b.tar.gz", "tar"));
    assert!(!has_extension_ignore_ascii_case("a/.json", "json"));
    assert!(!has_extension_ignore_ascii_case("a/json", "json"));
    assert!(!has_extension_ignore_ascii_case("a/..", ""));
    assert!(has_extension_ignore_ascii_case("a/b.", ""));
}

#[test]
fn paths_are_joined_below_a_directory() {
    assert_eq!(join_path("/a", "b/c"), "/a/b/c");
    assert_eq!(join_path("/a/", "b"), "/a/b");
    assert_eq!(join_path("/a", "/b"), "/b");
    assert_eq!(join_path("", "b"), "b");
}

#[test]
fn ignore_patterns_match_files() {
    let config = config(&["**/*", "!crates/**"]);
    let gitignore = build_config_gitignore(ROOT, &config).unwrap();
    assert!(config_ignores_path(gitignore.as_ref(), "Cargo.toml"));
    assert!(!config_ignores_path(gitignore.as_ref(), "crates/core/Cargo.toml"));
    assert!(!config_ignores_path(None, "Cargo.toml"));
    assert!(build_config_gitignore(ROOT, &self::config(&[])).unwrap().is_none());
}

#[test]
fn find_project_dirs_reports_invalid_ignore_pattern_from_config() {
    let error = find(&repository(&[]), &config(&["ok", "{a"])).unwrap_err();
    assert!(matches!(
        &error,
        DiscoveryError::Ignore(IgnoreError::Invalid { pattern, .. }) if pattern == "{a"
    ));
    assert!(error
        .message()
        .starts_with("Invalid ignore pattern in config: {a: "));
}

#[test]
fn find_dispatches_negated_manifest_and_invokes_finalizer() {
    let repository = repository(&[
        (
            "Cargo.toml",
            "[workspace]\nmembers = [\"crates/*\"]\n\n[workspace.package]\nversion = \"2.0.0\"\n",
        ),
        ("ignored/Cargo.toml", CLI),
        (
            "kept/Cargo.toml",
            "[package]\nname = \"kept\"\nversion.workspace = true\n",
        ),
    ]);
    let finder = find(&repository, &config(&["**/*", "!kept/Cargo.toml"])).unwrap();
    assert!(finder.pending_workspace_packages.is_empty());
    assert_eq!(project(&finder, "kept/Cargo.toml").version(), Some("2.0.0"));
    assert!(!finder
        .projects
        .entries
        .iter()
        .any(|entry| entry.value.name() == Some("cli")));
}

#[test]
fn find_uses_directory_name_when_origin_is_absent() {
    let finder = find(&repository(&[("Cargo.toml", NAMELESS)]), &config(&[])).unwrap();
    assert_eq!(project(&finder, "Cargo.toml").name(), Some("repo"));
}

#[test]
fn test_find_project_dirs_sets_name_from_remote_origin() {
    let mut repository = repository(&[
        ("Cargo.toml", NAMELESS),
        ("a/Cargo.toml", NAMELESS),
        ("b/Cargo.toml", CORE),
    ]);
    repository.origin = Some("/example/my-cool-repo.git");
    let finder = find(&repository, &config(&[])).unwrap();
    assert_eq!(project(&finder, "Cargo.toml").name(), Some("my-cool-repo"));
    assert_eq!(project(&finder, "a/Cargo.toml").name(), Some("my-cool-repo"));
    assert_eq!(project(&finder, "b/Cargo.toml").name(), Some("core"));
}

#[test]
fn repository_names_come_from_the_origin_first() {
    assert_eq!(
        repository_name_of(Some("owner/ssh-repo.git"), ROOT).as_deref(),
        Some("ssh-repo")
    );
    assert_eq!(
        repository_name_of(Some("owner/plain"), ROOT).as_deref(),
        Some("plain")
    );
    assert_eq!(
        repository_name_of(Some("owner/.git"), ROOT).as_deref(),
        Some("repo")
    );
    assert_eq!(
        repository_name_of(Some("owner/"), ROOT).as_deref(),
        Some("repo")
    );
    assert_eq!(repository_name_of(None, "/"), None);
}

#[test]
fn find_project_dirs_honors_ignore_for_tracked_base_branch_diff() {
    let mut repository = repository(&[("packages/core/Cargo.toml", CORE)]);
    repository.changes = Ok(vec![
        TreeChange {
            path: Ok("packages/core".to_string()),
            is_tree: true,
            source_is_tree: true,
        },
        leaf("packages/core/docs/guide.md"),
    ]);
    repository.status = listed(&["packages/core/docs/new.md"]);
    let finder = find(&repository, &config(&["packages/core/docs/**"])).unwrap();
    assert!(!project(&finder, "packages/core/Cargo.toml").is_changed());
}

#[test]
fn find_project_dirs_honors_ignore_negation_for_reincluded_child() {
    let mut repository = repository(&[("packages/core/Cargo.toml", CORE)]);
    repository.changes = Ok(vec![leaf("packages/core/docs/keep.md")]);
    let finder = find(
        &repository,
        &config(&["packages/core/docs/*", "!packages/core/docs/keep.md"]),
    )
    .unwrap();
    assert!(project(&finder, "packages/core/Cargo.toml").is_changed());
}

#[test]
fn test_find_project_dirs_with_changed_files() {
    let mut repository = repository(&[("core/Cargo.toml", CORE), ("cli/Cargo.toml", CLI)]);
    repository.status = listed(&["core/src/lib.rs"]);
    let finder = find(&repository, &config(&[])).unwrap();
    assert!(project(&finder, "core/Cargo.toml").is_changed());
    assert!(!project(&finder, "cli/Cargo.toml").is_changed());
}

#[test]
fn a_change_that_turns_a_directory_into_a_file_counts() {
    let mut repository = repository(&[("core/Cargo.toml", CORE)]);
    repository.changes = Ok(vec![TreeChange {
        path: Ok("core/data".to_string()),
        is_tree: false,
        source_is_tree: true,
    }]);
    let finder = find(&repository, &config(&[])).unwrap();
    assert!(project(&finder, "core/Cargo.toml").is_changed());
}

#[test]
fn changes_of_the_tool_itself_mark_nothing() {
    let mut repository = repository(&[("Cargo.toml", CORE)]);
    repository.status = listed(&[".changepacks/changepack_log_1.json"]);
    let finder = find(&repository, &config(&[])).unwrap();
    assert!(!project(&finder, "Cargo.toml").is_changed());
}

#[test]
fn marks_add_up_over_batches() {
    let repository = repository(&[("core/Cargo.toml", CORE), ("cli/Cargo.toml", CLI)]);
    let mut finder = find(&repository, &config(&[])).unwrap();
    check_changed_many(&mut finder, &vec!["/work/repo/core/a".to_string()]);
    check_changed_many(&mut finder, &vec!["/work/repo/cli/b".to_string()]);
    check_changed_many(&mut finder, &vec![]);
    assert!(project(&finder, "core/Cargo.toml").is_changed());
    assert!(project(&finder, "cli/Cargo.toml").is_changed());
}

#[test]
fn errors_of_the_repository_come_in_order() {
    let mut repository = repository(&[("core/Cargo.toml", CORE)]);
    repository.status = Err("no status".to_string());
    let error = find(&repository, &config(&[])).unwrap_err();
    assert_eq!(error.message(), "no status");
    repository.changes = Ok(vec![TreeChange {
        path: Err("bad path".to_string()),
        is_tree: false,
        source_is_tree: false,
    }]);
    let error = find(&repository, &config(&[])).unwrap_err();
    assert_eq!(
        error.message(),
        "Failed to enumerate changed tree paths: bad path"
    );
    repository.changes = Err("no base".to_string());
    let error = find(&repository, &config(&[])).unwrap_err();
    assert_eq!(error.message(), "no base");
    repository.files = vec![("core/Cargo.toml", "invalid toml [[[")];
    let error = find(&repository, &config(&[])).unwrap_err();
    assert!(error
        .message()
        .starts_with("Failed to parse Cargo.toml /work/repo/core/Cargo.toml: "));
}

#[test]
fn base_branches_are_looked_up_by_reference() {
    let config = config(&[]);
    assert_eq!(base_reference_of(&config, false), "refs/heads/main");
    assert_eq!(base_reference_of(&config, true), "refs/remotes/origin/main");
    assert_eq!(
        missing_base_message(&config, false),
        "base branch 'main' not found in local refs"
    );
    assert_eq!(
        missing_base_message(&config, true),
        "remote base branch 'origin/main' not found. Did you fetch first?"
    );
}

#[test]
fn faults_of_manifests_say_what_happened() {
    let path = "/work/repo/Cargo.toml".to_string();
    assert_eq!(
        FinderError::Unread { path: path.clone() }.message(),
        "Cargo.toml /work/repo/Cargo.toml has not been read"
    );
    assert_eq!(
        FinderError::Missing { path: path.clone() }.message(),
        "Failed to read Cargo.toml /work/repo/Cargo.toml: no such file"
    );
    assert_eq!(
        FinderError::Unreadable {
            path,
            message: "denied".to_string()
        }
        .message(),
        "Failed to read Cargo.toml /work/repo/Cargo.toml: denied"
    );
}

#[test]
fn test_find_project_dirs_multiple_packages() {
    let repository = repository(&[
        ("packages/core/Cargo.toml", CORE),
        ("packages/cli/Cargo.toml", CLI),
        ("packages/cli/README.md", "# cli"),
    ]);
    let finder = find(&repository, &config(&[])).unwrap();
    let mut names: Vec<&str> = finder
        .projects
        .entries
        .iter()
        .map(|entry| entry.value.name().unwrap())
        .collect();
    names.sort();
    assert_eq!(names, vec!["cli", "core"]);
}

#[test]
fn test_find_project_dirs_with_ignore() {
    let repository = repository(&[
        ("packages/core/Cargo.toml", CORE),
        ("packages/ignored/Cargo.toml", CLI),
    ]);
    let finder = find(&repository, &config(&["packages/ignored/**"])).unwrap();
    assert_eq!(finder.projects.entries.len(), 1);
    assert_eq!(finder.projects.entries[0].value.name(), Some("core"));
}

#[test]
fn test_find_project_dirs_sets_name_from_ssh_remote() {
    let mut repository = repository(&[("Cargo.toml", NAMELESS)]);
    repository.origin = Some("testuser/ssh-repo.git");
    let finder = find(&repository, &config(&[])).unwrap();
    assert_eq!(project(&finder, "Cargo.toml").name(), Some("ssh-repo"));
}

#[test]
fn test_find_project_dirs_name_not_overwritten_by_remote() {
    let mut repository = repository(&[("Cargo.toml", CORE)]);
    repository.origin = Some("/testuser/remote-name.git");
    let finder = find(&repository, &config(&[])).unwrap();
    assert_eq!(project(&finder, "Cargo.toml").name(), Some("core"));
}

#[test]
fn test_find_project_dirs_sets_remote_name_on_every_no_name_project() {
    let mut repository = repository(&[
        ("a/Cargo.toml", NAMELESS),
        ("b/Cargo.toml", NAMELESS),
        ("c/Cargo.toml", CLI),
    ]);
    repository.origin = Some("/testuser/shared-name.git");
    let finder = find(&repository, &config(&[])).unwrap();
    assert_eq!(project(&finder, "a/Cargo.toml").name(), Some("shared-name"));
    assert_eq!(project(&finder, "b/Cargo.toml").name(), Some("shared-name"));
    assert_eq!(project(&finder, "c/Cargo.toml").name(), Some("cli"));
}

#[test]
fn find_project_dirs_honors_ignore_for_untracked_status() {
    let mut repository = repository(&[("core/Cargo.toml", CORE)]);
    repository.status = listed(&["core/ignored.txt"]);
    let finder = find(&repository, &config(&["core/ignored.txt"])).unwrap();
    assert!(!project(&finder, "core/Cargo.toml").is_changed());
    repository.status = listed(&["core/ignored.txt", "core/seen.txt"]);
    let finder = find(&repository, &config(&["core/ignored.txt"])).unwrap();
    assert!(project(&finder, "core/Cargo.toml").is_changed());
}

#[test]
fn find_deduplicates_base_diff_and_index_worktree_change() {
    let mut repository = repository(&[("core/Cargo.toml", CORE), ("cli/Cargo.toml", CLI)]);
    repository.status = listed(&["core/src/lib.rs"]);
    repository.changes = Ok(vec![leaf("core/src/lib.rs")]);
    let finder = find(&repository, &config(&[])).unwrap();
    assert!(project(&finder, "core/Cargo.toml").is_changed());
    assert!(!project(&finder, "cli/Cargo.toml").is_changed());
}

#[test]
fn comments_and_blank_lines_ignore_nothing() {
    let gitignore = build_config_gitignore(ROOT, &config(&["#Cargo.toml", "", "  \t", "#{a"])).unwrap();
    assert!(!config_ignores_path(gitignore.as_ref(), "Cargo.toml"));
    assert!(!config_ignores_path(gitignore.as_ref(), "#Cargo.toml"));
}

#[test]
fn whitespace_at_the_end_of_a_line_is_no_part_of_its_pattern() {
    let lines = ["# the docs", "docs/*.md  ", "", "\\#notes\t", "kept\\ "];
    let gitignore = build_config_gitignore(ROOT, &config(&lines)).unwrap();
    assert!(config_ignores_path(gitignore.as_ref(), "docs/a.md"));
    assert!(config_ignores_path(gitignore.as_ref(), "#notes"));
    assert!(config_ignores_path(gitignore.as_ref(), "kept "));
    assert!(!config_ignores_path(gitignore.as_ref(), "kept"));
    assert!(!config_ignores_path(gitignore.as_ref(), "docs/a.md  "));
}

#[test]
fn a_leading_dot_of_the_root_does_not_matter() {
    for root in ["./repo", "repo"] {
        let gitignore = build_config_gitignore(root, &config(&["/docs/a.md"])).unwrap();
        assert!(config_ignores_path(gitignore.as_ref(), "repo/docs/a.md"));
        assert!(config_ignores_path(gitignore.as_ref(), "./docs/a.md"));
        assert!(!config_ignores_path(gitignore.as_ref(), "other/docs/a.md"));
    }
}
