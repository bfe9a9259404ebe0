use cargo_manage::{check_workspace_layout, parse_toml, HoistError};
use std::path::PathBuf;
use toml_edit::DocumentMut;

#[test]
fn test_parse_invalid_toml() {
    let path = PathBuf::from("test.toml");
    let result = parse_toml("invalid [ toml", &path);

    assert!(result.is_err());
    let err = result.unwrap_err();
    assert!(matches!(err, HoistError::ParseToml { .. }));
}

#[test]
fn parse_valid_toml() {
    let path = PathBuf::from("Cargo.toml");
    let doc = parse_toml("[package]\nname = \"x\"\n", &path).unwrap();
    assert_eq!(doc["package"]["name"].as_str(), Some("x"));
}

#[test]
fn workspace_layout_checks() {
    let ok: DocumentMut = "[workspace]\nmembers = []\n".parse().unwrap();
    assert!(check_workspace_layout(&ok));
    let none: DocumentMut = "[package]\nname = \"x\"\n".parse().unwrap();
    assert!(check_workspace_layout(&none));
    let bad_ws: DocumentMut = "workspace = 5\n".parse().unwrap();
    assert!(!check_workspace_layout(&bad_ws));
    let bad_deps: DocumentMut = "[workspace]\ndependencies = { serde = \"1\" }\n".parse().unwrap();
    assert!(!check_workspace_layout(&bad_deps));
}

#[test]
fn sort_reports_parse_errors() {
    let config = cargo_manage::HoistConfig::new();
    let mut stats = cargo_manage::SortStats::default();
    let result = cargo_manage::sort("invalid [ toml", std::path::Path::new("Cargo.toml"), &config, false, &mut stats);
    assert!(matches!(result, Err(HoistError::ParseToml { .. })));
    assert_eq!(stats.files_sorted, 0);
}
