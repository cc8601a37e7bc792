//! Verified core of a monorepo version and changelog manager.

pub mod ancestors;
pub mod applied_change_spans;
pub mod apply_reverse_dependencies;
pub mod assign_preserving_decor;
pub mod bump_version_with;
pub mod changed_projects;
pub mod clear_update_logs;
pub mod config;
pub mod dependency_pins;
pub mod dependents;
pub mod detect_indent;
pub mod display_project;
pub mod display_update;
pub mod ensure_declared_shape;
pub mod ensure_toml_table_like;
pub mod filter_project_dirs;
pub mod find_project_dirs;
pub mod finder;
pub mod found_projects;
pub mod gen_changepack_result_map;
pub mod gen_update_map;
pub mod get_changepack_dir;
pub mod ignore_patterns;
pub mod inherited_members;
pub mod inherited_versions;
pub mod json;
pub mod json_spans;
pub mod kept_changes;
pub mod kept_entries;
pub mod manifest;
pub mod manifest_facts;
pub mod manifest_update;
pub mod ordering;
pub mod package;
pub mod path_map;
pub mod paths;
pub mod planned_updates;
pub mod project;
pub mod project_names;
pub mod project_order;
pub mod rewritten_logs;
pub mod synced_pins;
pub mod text;
pub mod text_map;
pub mod text_set;
pub mod toml;
pub mod update_map;
pub mod update_on;
pub mod update_plan;
pub mod update_type;
pub mod update_version;
pub mod version;
pub mod whitespace;
pub mod workspace;
pub mod written_versions;
