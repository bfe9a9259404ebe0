//! Workspace `Cargo.toml` management: hoisting dependency versions into
//! `workspace.dependencies`, sorting dependency tables, and restoring backups.
//!
//! Documents are `toml_edit` documents, edited in place so that formatting,
//! comments and key order survive. Contracts speak of the model of TOML data
//! in [`model`], to which [`toml`] ties the `toml_edit` calls.

pub mod cli;
pub mod config;
pub mod deps;
pub mod errors;
pub mod files;
pub mod hoist;
pub mod laws;
pub mod model;
pub mod sorting;
pub mod text;
pub mod toml;

pub use cli::{CargoCommand, Cli, ManageArgs, ManageCommand};
pub use config::{HoistConfig, HoistStats, NameSet, RestoreStats, SortStats};
pub use deps::{ensure_workspace_deps, extract_version, has_path, is_workspace_dep, mutate_to_workspace};
pub use errors::{parse_toml, HoistError, Result};
pub use files::{
    backup_file_name, backup_name, clock_reading, is_backup_name, is_manifest_name, restore, sort,
    utc_stamp_at,
};
pub use hoist::{check_workspace_layout, hoist, plan_writes, HoistOutcome, WritePlan};
pub use sorting::{sort_document, sort_table};
