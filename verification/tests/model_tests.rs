use hostz::commands::{add_item, config_side_effects, item_type_from_name, ConfigEvent};
use hostz::error::HostzError;
use hostz::models::config::{
    default_choice_mode, default_history_limit, default_left_panel_width, default_true,
    validate_config_keys, AppConfig, Theme, WriteMode,
};
use hostz::models::hosts::{HostsListObject, HostsType};
use hostz::utils::platform::{config_dir, data_dir, system_hosts_path, Os};

#[test]
fn default_config_values() {
    let c = AppConfig::default();
    assert_eq!(c.write_mode, WriteMode::Append);
    assert_eq!(c.history_limit, 50);
    assert_eq!(c.choice_mode, 2);
    assert_eq!(c.theme, Theme::Light);
    assert_eq!(c.left_panel_width, 270);
    assert!(c.left_panel_show && c.tray_mini_window && c.auto_download_update);
    assert!(!c.remove_duplicate_records);
    assert!(default_true());
    assert_eq!(default_left_panel_width(), 270);
    assert_eq!(default_history_limit(), 50);
    assert_eq!(default_choice_mode(), 2);
    assert_eq!(WriteMode::default(), WriteMode::Append);
    assert_eq!(Theme::default(), Theme::Light);
}

#[test]
fn config_keys_must_be_known() {
    let ok = vec!["theme".to_string(), "historyLimit".to_string(), "showTitleOnTray".to_string()];
    assert!(validate_config_keys(&ok).is_ok());
    let bad = vec!["theme".to_string(), "nope".to_string(), "also".to_string()];
    match validate_config_keys(&bad) {
        Err(e) => {
            assert!(matches!(&e, HostzError::UnknownConfigKey { key } if key == "nope"));
            assert_eq!(e.message(), "未知配置项: nope");
        },
        Ok(()) => panic!("accepted an unknown key"),
    }
}

#[test]
fn error_messages() {
    assert_eq!(HostzError::ItemNotFound { id: "x".into() }.message(), "条目未找到: x");
    assert_eq!(HostzError::TrashItemNotFound { id: "x".into() }.message(), "回收站中未找到条目: x");
    assert_eq!(HostzError::NotRemote.message(), "非远程条目，无法刷新");
}

#[test]
fn test_system_paths() {
    let hosts_path = system_hosts_path(Os::Windows, Some("C:\\WINDOWS"));
    let joined = hosts_path.join("\\");
    assert!(joined.contains("etc"));
    assert!(joined.contains("hosts"));
    assert_eq!(system_hosts_path(Os::Linux, None), vec!["/etc/hosts".to_string()]);
    assert_eq!(system_hosts_path(Os::Windows, None)[0], "C:\\Windows");

    let data = data_dir(Os::Linux, None, Some("/home/u"));
    assert!(data.join("/").contains("HostZ"));
    assert_eq!(data.last().map(|s| s.as_str()), Some("data"));
    assert_eq!(data, vec!["/home/u", ".config", "HostZ", "data"]);
    assert_eq!(config_dir(Os::Windows, Some("C:\\A"), None), vec!["C:\\A", "HostZ", "config"]);
    assert_eq!(
        data_dir(Os::MacOs, None, Some("/Users/u")),
        vec!["/Users/u", "Library", "Application Support", "HostZ", "data"]
    );
}

#[test]
fn new_items_are_appended_off() {
    let list: Vec<HostsListObject> = Vec::new();
    let list = add_item(list, "id1".into(), "T".into(), "remote", Some("https://x".into()), Some(60));
    let list = add_item(list, "id2".into(), "G".into(), "group", None, None);
    let list = add_item(list, "id3".into(), "L".into(), "whatever", None, None);
    assert_eq!(list.len(), 3);
    assert_eq!(list[0].type_, HostsType::Remote);
    assert_eq!(list[0].refresh_interval, Some(60));
    assert_eq!(list[1].type_, HostsType::Group);
    assert_eq!(list[2].type_, HostsType::Local);
    assert_eq!(list[2].order, 2);
    assert!(!list[0].on);
    assert_eq!(item_type_from_name("remote"), HostsType::Remote);
}

#[test]
fn events_after_config_change() {
    let mut c = AppConfig::default();
    c.theme = Theme::Dark;
    c.hide_dock_icon = true;
    let keys = vec!["theme".to_string(), "hideDockIcon".to_string()];
    assert_eq!(
        config_side_effects(&keys, &c, true),
        vec![ConfigEvent::ThemeChanged(Theme::Dark), ConfigEvent::DockIconVisible(false), ConfigEvent::ConfigUpdated]
    );
    assert_eq!(
        config_side_effects(&keys, &c, false),
        vec![ConfigEvent::ThemeChanged(Theme::Dark), ConfigEvent::ConfigUpdated]
    );
}
