use hostz::services::cron::{cron_applied, cron_refreshed, cron_start, CronAction};
use hostz::services::cron::{has_http_prefix, ids_due_for_refresh};
use hostz::services::hotkey::HotkeyManager;
use hostz::services::notification::{remote_refresh_failed, remote_refreshed, update_available};
use hostz::services::tray::{tray_click_shows_window, tray_menu, tray_menu_action, TrayAction};
use hostz::services::update::{
    check_update, compare_versions, no_update_info, release_api_url, update_info_from_release,
    version_parts, UpdateGate,
};
use hostz::models::hosts::{HostsListObject, HostsType};

fn remote(id: &str, on: bool, interval: Option<i64>, url: Option<&str>, last: Option<i64>) -> HostsListObject {
    HostsListObject {
        id: id.to_string(),
        title: id.to_string(),
        type_: HostsType::Remote,
        on,
        content: None,
        url: url.map(|u| u.to_string()),
        refresh_interval: interval,
        last_refresh_ms: last,
        included: None,
        order: 0,
    }
}

#[test]
fn versions_compare_by_numbers() {
    assert_eq!(compare_versions("1.2.3", "1.2.3"), 0);
    assert!(compare_versions("v1.3.0", "1.2.9") > 0);
    assert!(compare_versions("1.2", "1.2.1") < 0);
    assert_eq!(compare_versions("1.10", "1.9"), 1);
    assert_eq!(compare_versions("2.0", "v2"), 0);
    assert_eq!(compare_versions("1.x.5", "1.5"), 0);
    assert_eq!(version_parts("vv1.+2.x.99999999999.3"), vec![1, 2, 3]);
}

#[test]
fn release_fields_make_update_info() {
    let info = update_info_from_release("0.1.0", Some("v0.2.0"), Some("https://h/r"), Some("notes".into()));
    assert!(info.has_update);
    assert_eq!(info.latest_version, "0.2.0");
    assert_eq!(info.current_version, "0.1.0");
    assert_eq!(info.download_url, "https://h/r");
    assert_eq!(info.release_notes, Some("notes".to_string()));
    let info = update_info_from_release("0.1.0", None, None, None);
    assert!(!info.has_update);
    assert_eq!(info.latest_version, "0.1.0");
    assert_eq!(info.download_url, "https://github.com/dorstar/hostz/releases");
    let none = no_update_info("1.0.0");
    assert!(!none.has_update);
    assert_eq!(none.download_url, "");
    assert_eq!(release_api_url(), "https://api.github.com/repos/dorstar/hostz/releases/latest");
}

#[test]
fn update_checks_wait_an_hour() {
    assert_eq!(check_update(1000, 0, true), (UpdateGate::CoolingDown, 0));
    assert_eq!(check_update(3600, 0, true), (UpdateGate::Check, 3600));
    assert_eq!(check_update(3600, 0, false), (UpdateGate::Disabled, 3600));
}

#[test]
fn due_remote_entries() {
    let list = vec![
        remote("due", true, Some(60), Some("https://x"), Some(0)),
        remote("fresh", true, Some(60), Some("https://x"), Some(100_000)),
        remote("off", false, Some(60), Some("https://x"), None),
        remote("nourl", true, Some(60), None, None),
        remote("ftp", true, Some(60), Some("ftp://x"), None),
        remote("zero", true, Some(0), Some("http://x"), None),
        remote("never", true, Some(1), Some("http://x"), None),
    ];
    assert_eq!(ids_due_for_refresh(&list, 120_000), vec!["due".to_string(), "never".to_string()]);
    assert!(has_http_prefix("https://a"));
    assert!(!has_http_prefix("htt"));
}

#[test]
fn notification_texts() {
    let n = remote_refreshed("A");
    assert_eq!(n.summary, "远程刷新成功");
    assert_eq!(n.body, "「A」已更新");
    let n = remote_refresh_failed("A", "boom");
    assert_eq!(n.summary, "远程刷新失败");
    assert_eq!(n.body, "「A」: boom");
    let n = update_available("1.2.3");
    assert_eq!(n.summary, "发现新版本");
    assert_eq!(n.body, "HostZ 1.2.3 可供下载");
}

#[test]
fn hotkeys_are_predefined_and_can_be_cleared() {
    let mut m = HotkeyManager::new();
    m.register_all();
    let defs = m.get_definitions();
    assert_eq!(defs.len(), 2);
    assert_eq!(defs[0].id, "toggle_hosts");
    assert_eq!(defs[0].key, "H");
    assert!(defs[0].modifiers.ctrl && defs[0].modifiers.shift);
    assert_eq!(defs[1].id, "toggle_window");
    assert_eq!(defs[1].key, "S");
    m.unregister_all();
    assert!(m.get_definitions().is_empty());
}

#[test]
fn tray_texts_and_actions() {
    let labels = |is_en: bool| -> Vec<(String, String)> { tray_menu(is_en) };
    let zh: Vec<(&str, &str)> = vec![("show", "显示主窗口"), ("quick_switch", "快速切换"), ("prefs", "偏好设置"),
        ("check_update", "检查更新"), ("quit", "退出")];
    let en: Vec<(&str, &str)> = vec![("show", "Show Window"), ("quick_switch", "Quick Switch"), ("prefs", "Preferences"),
        ("check_update", "Check for Updates"), ("quit", "Quit")];
    let as_owned = |v: Vec<(&str, &str)>| -> Vec<(String, String)> {
        v.into_iter().map(|(a, b)| (a.to_string(), b.to_string())).collect()
    };
    assert_eq!(labels(false), as_owned(zh));
    assert_eq!(labels(true), as_owned(en));
    assert_eq!(tray_menu_action("quick_switch"), TrayAction::QuickSwitch);
    assert_eq!(tray_menu_action("check_update"), TrayAction::CheckUpdate);
    assert_eq!(tray_menu_action("show"), TrayAction::ShowWindow);
    assert_eq!(tray_menu_action("prefs"), TrayAction::ShowPreferences);
    assert_eq!(tray_menu_action("quit"), TrayAction::Quit);
    assert_eq!(tray_menu_action("other"), TrayAction::Ignore);
    assert!(tray_click_shows_window(false));
    assert!(!tray_click_shows_window(true));
}

#[test]
fn cron_round_refreshes_then_applies_once() {
    let (r, a) = cron_start(0);
    assert_eq!(a, CronAction::Idle);
    assert_eq!(r.due, 0);

    let (r, a) = cron_start(2);
    assert_eq!(a, CronAction::Refresh(0));
    let (r, a) = cron_refreshed(r, false);
    assert_eq!(a, CronAction::Refresh(1));
    let (r, a) = cron_refreshed(r, true);
    assert_eq!(a, CronAction::ApplyToSystem);
    let (_, a) = cron_applied(r);
    assert_eq!(a, CronAction::Finish { pending: 2, refreshed: true });

    let (r, _) = cron_start(1);
    let (_, a) = cron_refreshed(r, false);
    assert_eq!(a, CronAction::Finish { pending: 1, refreshed: false });
}

#[test]
fn version_order_is_padded_lexicographic() {
    assert!(compare_versions("1.9.0", "1.10.0") < 0);
    assert!(compare_versions("1.10.0", "1.9.0") > 0);
    assert_eq!(compare_versions("1.2", "1.2.0"), 0);
    assert!(compare_versions("2", "1.99.99") > 0);
    assert!(compare_versions("v0.1.0", "0.1.1") < 0);
}
