use genconf::cli::{Cli, DEFAULT_CONFIG_FILE};
use genconf::config::{Config, ConfigItem, template_name};
use genconf::values::ValuesMap;
use genconf::writer::{
    WriteStatus, get_file_name, get_target_path, is_managed, is_stale, managed_file_names,
    write_status,
};
use std::path::PathBuf;

fn make_config(path_to_target: &str, target_extension: &str) -> Config {
    Config {
        path_to_target: path_to_target.to_string(),
        path_to_template: String::new(),
        template: String::new(),
        target_extension: target_extension.to_string(),
        clean_target: false,
        values: ValuesMap::new(),
        configs: Vec::new(),
    }
}

fn make_item(name: &str) -> ConfigItem {
    ConfigItem {
        name: name.to_string(),
        template: None,
        values: ValuesMap::new(),
    }
}

#[test]
fn builds_target_path_from_name_and_extension() {
    let config = make_config("/tmp/genconf", "conf");
    let item = make_item("worker-default");
    let file_name = get_file_name(&config, &item);

    let path = get_target_path(&config, &file_name);

    assert_eq!(path, PathBuf::from("/tmp/genconf/worker-default.conf"));
}

#[test]
fn file_name_is_name_dot_extension() {
    let config = make_config("", "ini");
    assert_eq!(get_file_name(&config, &make_item("a.b")), "a.b.ini");
    assert_eq!(get_file_name(&config, &make_item("")), ".ini");
}

#[test]
fn write_status_for_missing_same_and_new_content() {
    let new_content = "first content".to_string();
    let same = "first content".to_string();
    let other = "initial content".to_string();

    assert_eq!(write_status(None, &new_content), WriteStatus::Created);
    assert_eq!(write_status(Some(&same), &new_content), WriteStatus::Skipped);
    assert_eq!(write_status(Some(&other), &new_content), WriteStatus::Updated);
}

#[test]
fn status_labels() {
    assert_eq!(WriteStatus::Created.label(), "created");
    assert_eq!(WriteStatus::Updated.label(), "updated");
    assert_eq!(WriteStatus::Skipped.label(), "skip: no changes");
}

#[test]
fn managed_files_are_kept() {
    let managed = vec!["keep.conf".to_string(), "second.conf".to_string()];

    assert!(is_managed(&"keep.conf".to_string(), &managed));
    assert!(is_managed(&"second.conf".to_string(), &managed));
    assert!(!is_managed(&"remove.conf".to_string(), &managed));
    assert!(!is_managed(&"keep.conf".to_string(), &Vec::new()));
}

#[test]
fn item_template_overrides_default_template() {
    let mut config = make_config("", "conf");
    config.template = "default.conf".to_string();
    let mut item = make_item("worker");

    assert_eq!(template_name(&config, &item), "default.conf");
    item.template = Some("own.conf".to_string());
    assert_eq!(template_name(&config, &item), "own.conf");
}

#[test]
fn config_paths_default_and_given() {
    let cli = Cli { configs: Vec::new() };
    assert_eq!(cli.config_paths(PathBuf::from(DEFAULT_CONFIG_FILE)), vec![PathBuf::from("values.yaml")]);

    let cli = Cli { configs: vec![PathBuf::from("a.yaml"), PathBuf::from("b.yaml")] };
    assert_eq!(
        cli.config_paths(PathBuf::from(DEFAULT_CONFIG_FILE)),
        vec![PathBuf::from("a.yaml"), PathBuf::from("b.yaml")]
    );
}

#[test]
fn only_created_and_updated_files_are_written() {
    assert!(WriteStatus::Created.writes_file());
    assert!(WriteStatus::Updated.writes_file());
    assert!(!WriteStatus::Skipped.writes_file());
}

#[test]
fn stale_files_are_regular_unmanaged_files() {
    let managed = vec!["a.conf".to_string(), "b.conf".to_string()];
    let other = "c.conf".to_string();
    let kept = "a.conf".to_string();
    assert!(is_stale(true, Some(&other), &managed));
    assert!(!is_stale(true, Some(&kept), &managed));
    assert!(!is_stale(false, Some(&other), &managed));
    assert!(!is_stale(true, None, &managed));
}

#[test]
fn managed_names_follow_the_items() {
    let mut config = make_config("/tmp/genconf", "conf");
    config.configs = vec![make_item("worker-default"), make_item("worker-prod")];
    assert_eq!(
        managed_file_names(&config),
        vec!["worker-default.conf".to_string(), "worker-prod.conf".to_string()]
    );
    assert!(managed_file_names(&make_config("/tmp/genconf", "conf")).is_empty());
}
