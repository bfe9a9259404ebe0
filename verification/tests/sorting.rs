use cargo_manage::{sort_document, sort_table};
use toml_edit::DocumentMut;

#[test]
fn test_sort_table_alphabetical() {
    let mut doc: DocumentMut = r#"
        [dependencies]
        zebra = "1.0"
        apple = "2.0"
        mango = "3.0"
    "#
    .parse()
    .unwrap();

    let table = doc["dependencies"].as_table_mut().unwrap();
    sort_table(table, None);

    let keys: Vec<_> = table.iter().map(|(k, _)| k.to_string()).collect();
    assert_eq!(keys, vec!["apple", "mango", "zebra"]);
}

#[test]
fn test_sort_table_with_prefix() {
    let mut doc: DocumentMut = r#"
        [dependencies]
        zebra = "1.0"
        kintsu-core = "2.0"
        apple = "3.0"
        kintsu-api = "4.0"
    "#
    .parse()
    .unwrap();

    let table = doc["dependencies"].as_table_mut().unwrap();
    sort_table(table, Some("kintsu"));

    let keys: Vec<_> = table.iter().map(|(k, _)| k.to_string()).collect();
    // kintsu-* deps should come first (sorted), then others (sorted)
    assert_eq!(keys, vec!["kintsu-api", "kintsu-core", "apple", "zebra"]);
}

#[test]
fn test_sort_document_sorts_multiple_sections() {
    let mut doc: DocumentMut = r#"
        [dependencies]
        zebra = "1.0"
        apple = "2.0"

        [dev-dependencies]
        beta = "1.0"
        alpha = "2.0"
    "#
    .parse()
    .unwrap();

    let sections = vec!["dependencies".into(), "dev-dependencies".into()];
    sort_document(&mut doc, &sections, None);

    let deps: Vec<_> = doc["dependencies"]
        .as_table()
        .unwrap()
        .iter()
        .map(|(k, _)| k.to_string())
        .collect();
    assert_eq!(deps, vec!["apple", "zebra"]);

    let dev_deps: Vec<_> = doc["dev-dependencies"]
        .as_table()
        .unwrap()
        .iter()
        .map(|(k, _)| k.to_string())
        .collect();
    assert_eq!(dev_deps, vec!["alpha", "beta"]);
}

#[test]
fn test_sort_document_sorts_workspace_members() {
    let mut doc: DocumentMut = r#"
        [workspace]
        members = ["crate-c", "crate-a", "crate-b"]
    "#
    .parse()
    .unwrap();

    sort_document(&mut doc, &[], None);

    let members: Vec<_> = doc["workspace"]["members"]
        .as_array()
        .unwrap()
        .iter()
        .filter_map(|v| v.as_str())
        .collect();
    assert_eq!(members, vec!["crate-a", "crate-b", "crate-c"]);
}

// ---------------------------------------------------------------- further cases

fn keys_of(doc: &DocumentMut, section: &str) -> Vec<String> {
    doc[section].as_table().unwrap().iter().map(|(k, _)| k.to_string()).collect()
}

#[test]
fn sort_table_empty_returns_false_and_keeps_table() {
    let mut doc: DocumentMut = "[dependencies]\n".parse().unwrap();
    let before = doc.to_string();
    let table = doc["dependencies"].as_table_mut().unwrap();
    assert!(!sort_table(table, None));
    assert_eq!(doc.to_string(), before);
}

#[test]
fn sort_table_keeps_values_with_keys() {
    let mut doc: DocumentMut = r#"
        [dependencies]
        b = "2"
        a = { version = "1", features = ["x"] }
    "#
    .parse()
    .unwrap();
    let table = doc["dependencies"].as_table_mut().unwrap();
    assert!(sort_table(table, None));
    assert_eq!(keys_of(&doc, "dependencies"), vec!["a", "b"]);
    assert_eq!(doc["dependencies"]["b"].as_str(), Some("2"));
    assert_eq!(
        doc["dependencies"]["a"].as_inline_table().unwrap().get("version").unwrap().as_str(),
        Some("1")
    );
}

#[test]
fn sort_table_orders_by_code_point() {
    let mut doc: DocumentMut = r#"
        [dependencies]
        b = "1"
        B = "1"
        a-b = "1"
        a = "1"
        a_b = "1"
    "#
    .parse()
    .unwrap();
    let table = doc["dependencies"].as_table_mut().unwrap();
    sort_table(table, None);
    let mut expected = vec!["b", "B", "a-b", "a", "a_b"];
    expected.sort();
    assert_eq!(keys_of(&doc, "dependencies"), expected);
}

#[test]
fn sort_table_is_idempotent() {
    let mut doc: DocumentMut = r#"
        [dependencies]
        zebra = "1.0"
        kintsu-core = "2.0"
        apple = "3.0"
    "#
    .parse()
    .unwrap();
    sort_table(doc["dependencies"].as_table_mut().unwrap(), Some("kintsu"));
    let once = doc.to_string();
    sort_table(doc["dependencies"].as_table_mut().unwrap(), Some("kintsu"));
    assert_eq!(doc.to_string(), once);
}

#[test]
fn sort_document_reports_nothing_for_empty_document() {
    let mut doc: DocumentMut = "[package]\nname = \"x\"\n".parse().unwrap();
    let sections = vec!["dependencies".to_string()];
    assert!(!sort_document(&mut doc, &sections, None));
}

#[test]
fn sort_document_drops_non_string_members() {
    let mut doc: DocumentMut = r#"
        [workspace]
        members = ["b", 3, "a"]
    "#
    .parse()
    .unwrap();
    assert!(sort_document(&mut doc, &[], None));
    let members: Vec<_> = doc["workspace"]["members"]
        .as_array()
        .unwrap()
        .iter()
        .map(|v| v.as_str().map(|s| s.to_string()))
        .collect();
    assert_eq!(members, vec![Some("a".to_string()), Some("b".to_string())]);
}

#[test]
fn sort_document_sorts_workspace_dependencies_with_prefix() {
    let mut doc: DocumentMut = r#"
[workspace.dependencies]
zebra = "1"
my-core = "1"
apple = "1"
"#
    .parse()
    .unwrap();
    assert!(sort_document(&mut doc, &[], Some("my")));
    let keys: Vec<_> = doc["workspace"]["dependencies"]
        .as_table()
        .unwrap()
        .iter()
        .map(|(k, _)| k.to_string())
        .collect();
    assert_eq!(keys, vec!["my-core", "apple", "zebra"]);
}

#[test]
fn sort_document_twice_changes_nothing() {
    let sections = vec!["dependencies".to_string(), "workspace".to_string()];
    let mut doc: DocumentMut = "[workspace]\nresolver = \"2\"\nmembers = [\"b\", \"a\"]\n\n[workspace.dependencies]\nzebra = \"1\"\napple = \"2\"\n\n[dependencies]\ntokio = \"1\"\nanyhow = \"1\"\n"
        .parse()
        .unwrap();
    let first = sort_document(&mut doc, &sections, Some("zeb"));
    let once = doc.to_string();
    let second = sort_document(&mut doc, &sections, Some("zeb"));
    assert!(first);
    assert_eq!(first, second);
    assert_eq!(doc.to_string(), once);
    let keys: Vec<_> = doc["workspace"]["dependencies"]
        .as_table()
        .unwrap()
        .iter()
        .map(|(k, _)| k.to_string())
        .collect();
    assert_eq!(keys, vec!["zebra", "apple"]);
}
