use cargo_manage::{HoistConfig, ManageArgs, ManageCommand};
use std::path::PathBuf;

#[test]
fn test_config_default() {
    let config = HoistConfig::new();

    assert!(config.ignores.contains("target"));
    assert!(config.ignores.contains(".git"));
    assert_eq!(config.sections.len(), 3);
    assert!(config.sort_prefix.is_none());
}

#[test]
fn test_config_with_prefix() {
    let config = HoistConfig::new().with_prefix("mycompany");

    assert_eq!(config.sort_prefix, Some("mycompany".to_string()));
}

#[test]
fn test_config_with_custom_ignores() {
    let config = HoistConfig::new().with_ignores(["custom", "dirs"]);

    assert!(config.ignores.contains("custom"));
    assert!(config.ignores.contains("dirs"));
    assert!(!config.ignores.contains("target")); // Replaced, not merged
}

#[test]
fn default_config_lists_all_ignored_dirs_and_sections() {
    let config = HoistConfig::new();
    for name in ["target", ".git", "node_modules", "vendor", ".config", ".cargo"] {
        assert!(config.ignores.contains(name));
    }
    assert!(!config.ignores.contains("src"));
    assert_eq!(config.sections, vec!["dependencies", "dev-dependencies", "build-dependencies"]);
}

#[test]
fn args_select_command_and_prefix() {
    let args = ManageArgs {
        command: None,
        root: PathBuf::from("."),
        dry_run: false,
        verbose: false,
        prefix: Some("kintsu".to_string()),
    };
    assert!(matches!(args.selected_command(), ManageCommand::Deps));
    assert_eq!(args.config().sort_prefix, Some("kintsu".to_string()));
    let args = ManageArgs { command: Some(ManageCommand::Sort), prefix: None, ..args };
    assert!(matches!(args.selected_command(), ManageCommand::Sort));
    assert!(args.config().sort_prefix.is_none());
}
