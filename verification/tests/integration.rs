use cargo_manage::{
    backup_file_name, backup_name, clock_reading, hoist, is_backup_name, is_manifest_name,
    plan_writes, restore, sort, utc_stamp_at, HoistConfig, HoistOutcome, HoistStats, SortStats,
};
use std::path::Path;
use toml_edit::DocumentMut;

fn parse(text: &str) -> DocumentMut {
    text.parse().unwrap()
}

/// Hoists in memory; returns the stats, the root text and the member texts.
fn run_hoist(root: &str, members: &[&str]) -> (HoistStats, String, Vec<String>, Vec<bool>) {
    let mut root_doc = parse(root);
    let mut member_docs: Vec<DocumentMut> = members.iter().map(|m| parse(m)).collect();
    let config = HoistConfig::new();
    let outcome = hoist(&mut root_doc, &mut member_docs, &config);
    (
        outcome.stats,
        root_doc.to_string(),
        member_docs.iter().map(|d| d.to_string()).collect(),
        outcome.members_changed,
    )
}

#[test]
fn manifest_names_and_ignored_directories() {
    let config = HoistConfig::new();
    // the walk keeps manifests and skips ignored directories such as `target`
    assert!(is_manifest_name("Cargo.toml"));
    assert!(!is_manifest_name("Cargo.lock"));
    assert!(!is_manifest_name("cargo.toml"));
    assert!(config.ignores.contains("target"));
    assert!(!config.ignores.contains("crate-a"));
    assert!(!config.ignores.contains("crate-b"));
}

#[test]
fn backup_file_names() {
    assert_eq!(backup_file_name("Cargo.toml", false, None), Some("Cargo.toml.bak".to_string()));
    assert_eq!(
        backup_file_name("Cargo.toml", false, Some("20240131T235959Z")),
        Some("Cargo.toml.bak".to_string())
    );
    // an existing plain backup is never overwritten: the new name carries the stamp
    let stamped = backup_file_name("Cargo.toml", true, Some("20240131T235959Z")).unwrap();
    assert_eq!(stamped, "Cargo.toml.20240131T235959Z.bak");
    assert_ne!(stamped, "Cargo.toml.bak");
    assert!(is_backup_name(&stamped));
    assert_eq!(backup_file_name("Cargo.toml", true, None), None);
}

#[test]
fn utc_stamps_of_instants() {
    assert_eq!(utc_stamp_at(0, 0), Some("19700101T000000Z".to_string()));
    assert_eq!(utc_stamp_at(1_706_745_599, 0), Some("20240131T235959Z".to_string()));
    assert_eq!(utc_stamp_at(1_706_745_600, 999_999_999), Some("20240201T000000Z".to_string()));
    assert_eq!(utc_stamp_at(u64::MAX, 0), None);
    assert_eq!(utc_stamp_at(i64::MAX as u64, 0), None);
}

#[test]
fn current_stamp_shape() {
    // `YYYYMMDDTHHMMSSZ` for the current clock reading
    let (secs, nanos) = clock_reading().unwrap();
    assert!(nanos < 1_000_000_000);
    let stamp = utc_stamp_at(secs, nanos).unwrap();
    assert_eq!(stamp.len(), 16);
    assert_eq!(&stamp[8..9], "T");
    assert!(stamp.ends_with('Z'));
    assert!(stamp[..8].chars().all(|c| c.is_ascii_digit()));
}

#[test]
fn test_hoist_basic() {
    let (stats, root, members, changed) = run_hoist(
        r#"
[workspace]
members = ["crate-a", "crate-b"]
"#,
        &[
            r#"
[package]
name = "crate-a"
version = "0.1.0"

[dependencies]
serde = "1.0"
"#,
            r#"
[package]
name = "crate-b"
version = "0.1.0"

[dependencies]
serde = "1.0"
tokio = "1.0"
"#,
        ],
    );

    // Should have added serde and tokio to workspace.dependencies
    assert_eq!(stats.added, 2);
    // Should have updated 3 occurrences (serde in a, serde in b, tokio in b)
    assert_eq!(stats.updated, 3);
    assert_eq!(stats.skipped, 0);

    assert!(root.contains("[workspace.dependencies]"));
    assert!(root.contains("serde"));
    assert!(root.contains("tokio"));

    assert!(members[0].contains("workspace = true"));
    assert!(members[1].contains("workspace = true"));
    assert_eq!(changed, vec![true, true]);
}

#[test]
fn test_hoist_skips_path_deps() {
    let (stats, _, _, changed) = run_hoist(
        r#"
[workspace]
members = ["crate-a"]
"#,
        &[r#"
[package]
name = "crate-a"
version = "0.1.0"

[dependencies]
local-crate = { path = "../local-crate" }
"#],
    );

    assert_eq!(stats.added, 0);
    assert_eq!(stats.updated, 0);
    assert_eq!(stats.skipped, 1);
    assert_eq!(changed, vec![false]);
}

#[test]
fn test_hoist_skips_existing_workspace_deps() {
    let (stats, _, _, _) = run_hoist(
        r#"
[workspace]
members = ["crate-a"]
"#,
        &[r#"
[package]
name = "crate-a"
version = "0.1.0"

[dependencies]
serde = { workspace = true }
"#],
    );

    // Already workspace dep, should be skipped entirely
    assert_eq!(stats.added, 0);
    assert_eq!(stats.updated, 0);
}

#[test]
fn test_hoist_dry_run() {
    let member_content = r#"
[package]
name = "crate-a"
version = "0.1.0"

[dependencies]
serde = "1.0"
"#;
    let mut root_doc = parse(
        r#"
[workspace]
members = ["crate-a"]
"#,
    );
    let mut member_docs = vec![parse(member_content)];
    let config = HoistConfig::new();
    let outcome: HoistOutcome = hoist(&mut root_doc, &mut member_docs, &config);
    let plan = plan_writes(&outcome, true);
    let stats = outcome.stats;

    assert_eq!(stats.added, 1);
    assert_eq!(stats.updated, 1);

    // Files should NOT be modified in dry run: nothing is planned for writing
    assert!(!plan.root);
    assert_eq!(plan.members, vec![false]);
}

#[test]
fn test_hoist_writes_changed_manifests() {
    let mut root_doc = parse("[workspace]\nmembers = [\"a\", \"b\"]\n");
    let mut member_docs = vec![
        parse("[package]\nname = \"a\"\n\n[dependencies]\nserde = \"1.0\"\n"),
        parse("[package]\nname = \"b\"\n"),
    ];
    let outcome = hoist(&mut root_doc, &mut member_docs, &HoistConfig::new());
    let plan = plan_writes(&outcome, false);
    assert!(plan.root);
    assert_eq!(plan.members, vec![true, false]);
}

#[test]
fn test_sort_integration() {
    let content = r#"
[workspace]
members = ["crate-b", "crate-a"]

[workspace.dependencies]
zebra = "1.0"
apple = "2.0"
"#;
    let config = HoistConfig::new();
    let mut stats = SortStats::default();
    let doc = sort(content, Path::new("Cargo.toml"), &config, false, &mut stats).unwrap().unwrap();

    assert_eq!(stats.files_sorted, 1);

    let doc: DocumentMut = doc.to_string().parse().unwrap();

    // Check workspace.dependencies is sorted
    let ws_deps: Vec<_> = doc["workspace"]["dependencies"]
        .as_table()
        .unwrap()
        .iter()
        .map(|(k, _)| k.to_string())
        .collect();
    assert_eq!(ws_deps, vec!["apple", "zebra"]);

    // Check members is sorted
    let members: Vec<_> = doc["workspace"]["members"]
        .as_array()
        .unwrap()
        .iter()
        .filter_map(|v| v.as_str())
        .collect();
    assert_eq!(members, vec!["crate-a", "crate-b"]);
}

#[test]
fn restore_plan_copies_backups() {
    assert!(is_backup_name("Cargo.toml.bak"));
    let (stats, copy) = restore(&vec![true], false);

    assert_eq!(stats.files_restored, 1);
    assert_eq!(copy, vec![true]);
}

#[test]
fn restore_plan_dry_run_copies_nothing() {
    let (stats, copy) = restore(&vec![true], true);

    assert_eq!(stats.files_restored, 1);
    // File should NOT be restored in dry run
    assert_eq!(copy, vec![false]);
}

#[test]
fn test_hoist_preserves_extra_fields() {
    let (_, _, members, _) = run_hoist(
        r#"
[workspace]
members = ["crate-a"]
"#,
        &[r#"
[package]
name = "crate-a"
version = "0.1.0"

[dependencies]
serde = { version = "1.0", features = ["derive"], optional = true }
"#],
    );
    let crate_a = &members[0];

    // Should have workspace = true
    assert!(crate_a.contains("workspace = true"));
    // Should preserve features
    assert!(crate_a.contains("features"));
    assert!(crate_a.contains("derive"));
    // Should preserve optional
    assert!(crate_a.contains("optional"));
    // Should NOT have version anymore
    assert!(!crate_a.contains("version = \"1.0\""));
}

#[test]
fn test_hoist_handles_dev_and_build_deps() {
    let (stats, root, _, _) = run_hoist(
        r#"
[workspace]
members = ["crate-a"]
"#,
        &[r#"
[package]
name = "crate-a"
version = "0.1.0"

[dependencies]
serde = "1.0"

[dev-dependencies]
tokio-test = "0.4"

[build-dependencies]
cc = "1.0"
"#],
    );

    assert_eq!(stats.added, 3);
    assert_eq!(stats.updated, 3);

    assert!(root.contains("serde"));
    assert!(root.contains("tokio-test"));
    assert!(root.contains("cc"));
}

// ---------------------------------------------------------------- further cases

fn ws_deps(root: &str) -> Vec<(String, String)> {
    let doc: DocumentMut = root.parse().unwrap();
    doc["workspace"]["dependencies"]
        .as_table()
        .unwrap()
        .iter()
        .map(|(k, v)| (k.to_string(), v.as_str().unwrap_or("").to_string()))
        .collect()
}

#[test]
fn hoist_takes_first_declared_version_and_keeps_existing() {
    let (stats, root, members, _) = run_hoist(
        r#"
[workspace.dependencies]
log = "0.4"
"#,
        &[
            "[dependencies]\nserde = \"1.0.100\"\nlog = \"0.3\"\n",
            "[dependencies]\nserde = \"1.0.200\"\n",
        ],
    );
    assert_eq!(stats.added, 1);
    assert_eq!(stats.updated, 3);
    assert_eq!(stats.skipped, 0);
    assert_eq!(
        ws_deps(&root),
        vec![("log".to_string(), "0.4".to_string()), ("serde".to_string(), "1.0.100".to_string())]
    );
    assert!(members[0].contains("log = { workspace = true }"));
}

#[test]
fn hoist_leaves_dependency_local_anywhere_alone() {
    let (stats, root, members, changed) = run_hoist(
        "[workspace]\n",
        &[
            "[dependencies]\nshared = { path = \"../shared\" }\n",
            "[dependencies]\nshared = \"0.1\"\nserde = \"1.0\"\n",
        ],
    );
    assert_eq!(stats.added, 1);
    assert_eq!(stats.skipped, 1);
    assert_eq!(stats.updated, 1);
    assert_eq!(ws_deps(&root), vec![("serde".to_string(), "1.0".to_string())]);
    assert!(members[0].contains("path"));
    assert!(members[1].contains("shared = \"0.1\""));
    assert!(members[1].contains("serde = { workspace = true }"));
    assert_eq!(changed, vec![false, true]);
}

#[test]
fn sort_dry_run_counts_without_writing() {
    let config = HoistConfig::new();
    let mut stats = SortStats::default();
    let out = sort("[dependencies]\nzed = \"1\"\nabc = \"1\"\n", Path::new("Cargo.toml"), &config, true, &mut stats)
        .unwrap();
    assert!(out.is_none());
    assert_eq!(stats.files_sorted, 1);
}

#[test]
fn hoist_skips_dependency_without_version() {
    let (stats, _, _, changed) = run_hoist(
        "[workspace]\n",
        &["[dependencies]\ngit-dep = { git = \"https://example.com/repo\" }\n"],
    );
    assert_eq!(stats.added, 0);
    assert_eq!(stats.skipped, 1);
    assert_eq!(stats.updated, 0);
    assert_eq!(changed, vec![false]);
}

#[test]
fn hoist_adds_in_order_of_first_declaration() {
    let (stats, root, _, _) = run_hoist(
        "[workspace]\n",
        &["[dependencies]\nzeta = \"1\"\nalpha = \"2\"\n", "[dependencies]\nmid = \"3\"\n"],
    );
    assert_eq!(stats.added, 3);
    let names: Vec<_> = ws_deps(&root).into_iter().map(|(k, _)| k).collect();
    assert_eq!(names, vec!["zeta", "alpha", "mid"]);
}

#[test]
fn hoist_twice_changes_nothing_more() {
    let mut root = parse("[workspace]\n");
    let mut members = vec![parse("[dependencies]\nserde = \"1.0\"\n")];
    let config = HoistConfig::new();
    let first = hoist(&mut root, &mut members, &config);
    assert_eq!(first.stats, HoistStats { added: 1, updated: 1, skipped: 0 });
    let second = hoist(&mut root, &mut members, &config);
    assert_eq!(second.stats, HoistStats { added: 0, updated: 0, skipped: 0 });
    assert_eq!(second.members_changed, vec![false]);
}

#[test]
fn sort_reports_unsorted_file_only_when_something_changed() {
    let config = HoistConfig::new();
    let mut stats = SortStats::default();
    let unchanged = sort("[package]\nname = \"x\"\n", Path::new("Cargo.toml"), &config, false, &mut stats).unwrap();
    assert!(unchanged.is_none());
    assert_eq!(stats.files_sorted, 0);
}

#[test]
fn sort_uses_configured_prefix() {
    let config = HoistConfig::new().with_prefix("my");
    let mut stats = SortStats::default();
    let doc = sort("[dependencies]\nzed = \"1\"\nmy-a = \"1\"\n", Path::new("Cargo.toml"), &config, false, &mut stats)
        .unwrap()
        .unwrap();
    let keys: Vec<_> = doc["dependencies"].as_table().unwrap().iter().map(|(k, _)| k.to_string()).collect();
    assert_eq!(keys, vec!["my-a", "zed"]);
}

#[test]
fn restore_skips_backups_without_manifest() {
    let (stats, copy) = restore(&vec![true, false, true], false);
    assert_eq!(stats.files_restored, 2);
    assert_eq!(copy, vec![true, false, true]);
}

#[test]
fn backup_names() {
    assert_eq!(backup_name("Cargo.toml", None), "Cargo.toml.bak");
    assert_eq!(backup_name("Cargo.toml", Some("20240101T000000Z")), "Cargo.toml.20240101T000000Z.bak");
    assert!(is_backup_name("Cargo.toml.20240101T000000Z.bak"));
    assert!(!is_backup_name("Cargo.toml"));
    assert!(!is_backup_name("Cargo.tomlx.bak"));
    assert!(!is_backup_name("Cargo.toml.bak.old"));
}
