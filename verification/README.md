# cargo-manage

Manage `Cargo.toml` dependencies across Rust workspaces:

- `cargo manage` / `cargo manage deps` hoists dependency versions into
  `[workspace.dependencies]` and rewrites member declarations to
  `workspace = true`;
- `cargo manage sort` sorts dependency tables (optionally with a priority
  prefix) and `workspace.members`;
- `cargo manage restore` restores manifests from `.bak` backups.

## Layout

- `src/` is the library, written in Verus and verified:
  - `model.rs`: the model of TOML data that contracts speak of (tables as
    ordered entries, dependency specifications, the workspace table);
  - `toml.rs`: the `toml_edit` calls the library makes, each behind a small
    trusted wrapper whose contract is stated over the model;
  - `text.rs`: string comparison, prefixes and suffixes;
  - `deps.rs`: reading and rewriting one dependency;
  - `sorting.rs`: sorting tables, `workspace.members` and whole documents;
  - `hoist.rs`: hoisting over a root manifest and its members;
  - `files.rs`: backup names, restore planning, sorting one manifest;
  - `config.rs`, `errors.rs`, `cli.rs`: configuration, errors, command line;
  - `laws.rs`: properties that span operations (idempotence of rewriting,
    sorting and hoisting, stated for tables whose keys are distinct, as the
    tables of every parsed manifest are; what hoisting keeps, skips, adds and
    leaves alone).
- `tests/` exercises the library on concrete manifests.
- `app/` is the command-line program: argument parsing, directory walking,
  file reads, writes and backups, and logging.
