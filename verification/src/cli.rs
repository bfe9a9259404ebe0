//! The command line of `cargo manage`, as plain data, and what it selects.

use vstd::prelude::*;
use crate::config::{opt_string_view, HoistConfig};
use crate::sorting::views;
use std::path::PathBuf;

verus! {

/// The subcommands of `cargo manage`.
#[derive(Debug, Clone, Copy)]
pub enum ManageCommand {
    /// Hoist dependency versions to workspace.dependencies (default command)
    Deps,
    /// Sort dependencies in all Cargo.toml files
    Sort,
    /// Restore Cargo.toml files from .bak backups
    Restore,
}

/// The arguments of `cargo manage`.
#[derive(Debug)]
pub struct ManageArgs {
    pub command: Option<ManageCommand>,
    /// Root directory of the workspace
    pub root: PathBuf,
    /// Perform a dry run without modifying files
    pub dry_run: bool,
    /// Enable verbose output
    pub verbose: bool,
    /// Prefix for priority sorting (deps with this prefix come first)
    pub prefix: Option<String>,
}

/// The cargo subcommand.
#[derive(Debug)]
pub enum CargoCommand {
    /// Manage workspace dependencies
    Manage(ManageArgs),
}

/// The whole command line.
#[derive(Debug)]
pub struct Cli {
    pub command: CargoCommand,
}

impl ManageArgs {
    /// The command to run: the one given, `deps` when none is.
    pub fn selected_command(&self) -> (r: ManageCommand)
        ensures
            r == match self.command {
                Some(c) => c,
                None => ManageCommand::Deps,
            },
    {
        match self.command {
            Some(c) => c,
            None => ManageCommand::Deps,
        }
    }

    /// The configuration the arguments ask for: the default one, with the
    /// priority prefix when one is given.
    pub fn config(&self) -> (r: HoistConfig)
        ensures
            r.ignores@ == HoistConfig::new_config_ignores(),
            views(r.sections@) == HoistConfig::new_config_sections(),
            opt_string_view(r.sort_prefix) == opt_string_view(self.prefix),
    {
        let config = HoistConfig::new();
        match &self.prefix {
            Some(p) => config.with_prefix(p.as_str()),
            None => config,
        }
    }
}

} // verus!
