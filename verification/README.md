# changepacks

Version management for the Cargo projects of a git repository: it finds the
projects, reads the changepack logs that say which of them to release, plans the
bumps that follow from rules and dependencies, and rewrites manifests and logs
without disturbing the rest of their text.

The library is written in Verus. Every function of `src/` carries a contract
that the verifier proves; what is taken on trust from other crates stands in
small wrappers beside the module that needs it (`toml`, `json`,
`ignore_patterns`, `update_on`, `display_project`, `applied_change_spans`).

- Discovery: `finder`, `ancestors`, `manifest`, `inherited_versions`,
  `find_project_dirs`, `filter_project_dirs`, `ignore_patterns`
- Planning: `gen_update_map`, `update_on`, `apply_reverse_dependencies`,
  `project_order`, `update_plan`, `project_names`
- Manifests: `update_version`, `manifest_update`, `dependency_pins`, `version`,
  `bump_version_with`, `kept_entries`, `whitespace`, `toml`
- Logs and results: `clear_update_logs`, `applied_change_spans`,
  `rewritten_logs`, `gen_changepack_result_map`, `display_project`,
  `display_update`
- Values: `package`, `workspace`, `project`, `config`, `update_map`,
  `update_type`, `paths`, `path_map`, `text`, `text_map`, `text_set`, `ordering`

`tests/` runs the library on concrete manifests and logs. `app/` connects it to
git and the file system.
