use cargo_manage::{
    ensure_workspace_deps, extract_version, has_path, is_workspace_dep, mutate_to_workspace,
};
use toml_edit::{DocumentMut, Item, Value};

#[test]
fn test_extract_version_string() {
    let doc: DocumentMut = r#"
        [dependencies]
        serde = "1.0"
    "#
    .parse()
    .unwrap();

    let item = doc["dependencies"]["serde"].clone();
    assert_eq!(extract_version(&item), Some("1.0".to_string()));
}

#[test]
fn test_extract_version_inline_table() {
    let doc: DocumentMut = r#"
        [dependencies]
        serde = { version = "1.0", features = ["derive"] }
    "#
    .parse()
    .unwrap();

    let item = doc["dependencies"]["serde"].clone();
    assert_eq!(extract_version(&item), Some("1.0".to_string()));
}

#[test]
fn test_extract_version_table() {
    let doc: DocumentMut = r#"
        [dependencies.serde]
        version = "1.0"
        features = ["derive"]
    "#
    .parse()
    .unwrap();

    let item = doc["dependencies"]["serde"].clone();
    assert_eq!(extract_version(&item), Some("1.0".to_string()));
}

#[test]
fn test_extract_version_path_dep_returns_none() {
    let doc: DocumentMut = r#"
        [dependencies]
        my-crate = { path = "../my-crate" }
    "#
    .parse()
    .unwrap();

    let item = doc["dependencies"]["my-crate"].clone();
    assert_eq!(extract_version(&item), None);
}

#[test]
fn test_is_workspace_dep_true() {
    let doc: DocumentMut = r#"
        [dependencies]
        serde = { workspace = true }
    "#
    .parse()
    .unwrap();

    let item = doc["dependencies"]["serde"].clone();
    assert!(is_workspace_dep(&item));
}

#[test]
fn test_is_workspace_dep_false() {
    let doc: DocumentMut = r#"
        [dependencies]
        serde = "1.0"
    "#
    .parse()
    .unwrap();

    let item = doc["dependencies"]["serde"].clone();
    assert!(!is_workspace_dep(&item));
}

#[test]
fn test_has_path_true() {
    let doc: DocumentMut = r#"
        [dependencies]
        my-crate = { path = "../my-crate", version = "0.1" }
    "#
    .parse()
    .unwrap();

    let item = doc["dependencies"]["my-crate"].clone();
    assert!(has_path(&item));
}

#[test]
fn test_has_path_false() {
    let doc: DocumentMut = r#"
        [dependencies]
        serde = { version = "1.0" }
    "#
    .parse()
    .unwrap();

    let item = doc["dependencies"]["serde"].clone();
    assert!(!has_path(&item));
}

#[test]
fn test_mutate_to_workspace_string() {
    let mut doc: DocumentMut = r#"
        [dependencies]
        serde = "1.0"
    "#
    .parse()
    .unwrap();

    let item = doc["dependencies"]
        .as_table_mut()
        .unwrap()
        .get_mut("serde")
        .unwrap();
    mutate_to_workspace(item);

    assert!(is_workspace_dep(&doc["dependencies"]["serde"]));
}

#[test]
fn test_mutate_to_workspace_inline_table() {
    let mut doc: DocumentMut = r#"
        [dependencies]
        serde = { version = "1.0", features = ["derive"] }
    "#
    .parse()
    .unwrap();

    let item = doc["dependencies"]
        .as_table_mut()
        .unwrap()
        .get_mut("serde")
        .unwrap();
    mutate_to_workspace(item);

    let output = doc.to_string();
    assert!(output.contains("workspace = true"));
    assert!(!output.contains("version"));
    // Features should be preserved
    assert!(output.contains("features"));
}

#[test]
fn test_ensure_workspace_deps_creates_structure() {
    let mut doc: DocumentMut = r#"
        [package]
        name = "test"
    "#
    .parse()
    .unwrap();

    let ws_deps = ensure_workspace_deps(&mut doc);
    ws_deps.insert("serde", Item::Value(Value::from("1.0")));

    let output = doc.to_string();
    assert!(output.contains("[workspace.dependencies]") || output.contains("[workspace]"));
    assert!(output.contains("serde"));
}

// ---------------------------------------------------------------- further cases

#[test]
fn extract_version_table_with_path_returns_none() {
    let doc: DocumentMut = r#"
        [dependencies.local]
        path = "../local"
        version = "0.3"
    "#
    .parse()
    .unwrap();
    assert_eq!(extract_version(&doc["dependencies"]["local"]), None);
}

#[test]
fn extract_version_non_string_version_is_none() {
    let doc: DocumentMut = r#"
        [dependencies]
        odd = { version = 3 }
        weird = 5
    "#
    .parse()
    .unwrap();
    assert_eq!(extract_version(&doc["dependencies"]["odd"]), None);
    assert_eq!(extract_version(&doc["dependencies"]["weird"]), None);
}

#[test]
fn workspace_flag_false_is_not_a_workspace_dep() {
    let doc: DocumentMut = r#"
        [dependencies]
        a = { workspace = false }
        [dependencies.b]
        workspace = true
    "#
    .parse()
    .unwrap();
    assert!(!is_workspace_dep(&doc["dependencies"]["a"]));
    assert!(is_workspace_dep(&doc["dependencies"]["b"]));
}

#[test]
fn has_path_on_plain_string_is_false_and_on_table_is_true() {
    let doc: DocumentMut = r#"
        [dependencies]
        a = "1"
        [dependencies.b]
        path = "../b"
    "#
    .parse()
    .unwrap();
    assert!(!has_path(&doc["dependencies"]["a"]));
    assert!(has_path(&doc["dependencies"]["b"]));
}

#[test]
fn mutate_to_workspace_table_keeps_other_keys_in_place() {
    let mut doc: DocumentMut = r#"
[dependencies.serde]
version = "1.0"
features = ["derive"]
optional = true
"#
    .parse()
    .unwrap();
    let item = doc["dependencies"].as_table_mut().unwrap().get_mut("serde").unwrap();
    mutate_to_workspace(item);
    let t = doc["dependencies"]["serde"].as_table().unwrap();
    let keys: Vec<_> = t.iter().map(|(k, _)| k.to_string()).collect();
    assert_eq!(keys, vec!["features", "optional", "workspace"]);
    assert!(is_workspace_dep(&doc["dependencies"]["serde"]));
    assert_eq!(extract_version(&doc["dependencies"]["serde"]), None);
}

#[test]
fn mutate_to_workspace_twice_is_once() {
    let mut doc: DocumentMut = r#"
        [dependencies]
        serde = { version = "1.0", features = ["derive"] }
    "#
    .parse()
    .unwrap();
    let item = doc["dependencies"].as_table_mut().unwrap().get_mut("serde").unwrap();
    mutate_to_workspace(item);
    let once = doc.to_string();
    let item = doc["dependencies"].as_table_mut().unwrap().get_mut("serde").unwrap();
    mutate_to_workspace(item);
    assert_eq!(doc.to_string(), once);
}

#[test]
fn mutate_to_workspace_leaves_other_values_alone() {
    let mut doc: DocumentMut = r#"
        [dependencies]
        weird = 5
    "#
    .parse()
    .unwrap();
    let before = doc.to_string();
    let item = doc["dependencies"].as_table_mut().unwrap().get_mut("weird").unwrap();
    mutate_to_workspace(item);
    assert_eq!(doc.to_string(), before);
}

#[test]
fn ensure_workspace_deps_keeps_existing_entries() {
    let mut doc: DocumentMut = r#"
[workspace]
members = ["a"]

[workspace.dependencies]
serde = "1.0"
"#
    .parse()
    .unwrap();
    let ws_deps = ensure_workspace_deps(&mut doc);
    let keys: Vec<_> = ws_deps.iter().map(|(k, _)| k.to_string()).collect();
    assert_eq!(keys, vec!["serde"]);
    ws_deps.insert("tokio", Item::Value(Value::from("1")));
    let keys: Vec<_> = doc["workspace"]["dependencies"]
        .as_table()
        .unwrap()
        .iter()
        .map(|(k, _)| k.to_string())
        .collect();
    assert_eq!(keys, vec!["serde", "tokio"]);
}
