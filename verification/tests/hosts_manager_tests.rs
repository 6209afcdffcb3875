use hostz::hosts_core::hosts_manager::{
    get_history_limit, get_write_mode, history_label, lf_to_crlf_text, make_append_content,
    mark_refreshed, normalize_system_hosts_text, normalize_to_lf, plan_system_hosts_write,
    remote_url_of, toggle_item,
};
use hostz::error::HostzError;
use hostz::models::config::{AppConfig, WriteMode};
use hostz::models::hosts::{HostsListObject, HostsType};

const HOSTS_CONTENT_MARKER: &str = "# --- SWITCHHOSTS_CONTENT_START ---";

fn make_item(id: &str, on: bool) -> HostsListObject {
    HostsListObject {
        id: id.to_string(),
        title: id.to_string(),
        type_: HostsType::Local,
        on,
        content: None,
        url: None,
        refresh_interval: None,
        last_refresh_ms: None,
        included: None,
        order: 0,
    }
}

#[test]
fn test_make_append_content_no_marker() {
    let current = "127.0.0.1 localhost\n";
    let new_content = "10.0.0.1 example.com\n";
    let result = make_append_content(current, new_content);
    assert!(result.contains(HOSTS_CONTENT_MARKER));
    assert!(result.contains("localhost"));
    assert!(result.contains("example.com"));
}

#[test]
fn test_make_append_content_with_marker() {
    let current = "127.0.0.1 localhost\n# --- SWITCHHOSTS_CONTENT_START ---\nold stuff\n";
    let new_content = "10.0.0.1 example.com\n";
    let result = make_append_content(current, new_content);
    assert!(result.contains("localhost"));
    assert!(result.contains("example.com"));
    assert!(!result.contains("old stuff"));
    assert_eq!(result.matches(HOSTS_CONTENT_MARKER).count(), 1);
}

#[test]
fn append_content_exact_texts() {
    assert_eq!(
        make_append_content("a", "b"),
        "a\n\n# --- SWITCHHOSTS_CONTENT_START ---\nb"
    );
    assert_eq!(
        make_append_content("a\n", "b"),
        "a\n\n# --- SWITCHHOSTS_CONTENT_START ---\nb"
    );
    assert_eq!(make_append_content("", "b"), "\n# --- SWITCHHOSTS_CONTENT_START ---\nb");
}

#[test]
fn append_twice_changes_nothing() {
    let once = make_append_content("127.0.0.1 localhost", "10.0.0.1 x\n");
    let twice = make_append_content(&once, "10.0.0.1 x\n");
    assert_eq!(once, twice);
}

#[test]
fn test_crlf_normalization_no_doubling() {
    let content = "line1\r\nline2\nline3\r\n";
    let normalized = normalize_to_lf(content);
    let result = lf_to_crlf_text(&normalized);
    assert!(!result.contains("\r\r\n"));
    assert!(!result.contains("\r\r"));
    assert_eq!(result, "line1\r\nline2\r\nline3\r\n");
}

#[test]
fn system_hosts_text_by_platform() {
    assert_eq!(normalize_system_hosts_text("a\r\nb\n", true), "a\r\nb\r\n");
    assert_eq!(normalize_system_hosts_text("a\r\nb\n", false), "a\nb\n");
    assert_eq!(normalize_to_lf("a\r\r\nb"), "a\r\nb");
}

#[test]
fn plan_write_overwrite_and_unchanged() {
    assert_eq!(
        plan_system_hosts_write("1.1.1.1 a\r\n", "old\n", false, WriteMode::Overwrite, false),
        Some("1.1.1.1 a\n".to_string())
    );
    assert_eq!(plan_system_hosts_write("x\n", "x\r\n", false, WriteMode::Overwrite, false), None);
    assert_eq!(
        plan_system_hosts_write("x\n", "y\n", false, WriteMode::Overwrite, true),
        Some("x\r\n".to_string())
    );
}

#[test]
fn plan_write_twice_writes_once() {
    let first = plan_system_hosts_write("1.1.1.1 a\n", "127.0.0.1 localhost\n", false, WriteMode::Append, true)
        .unwrap();
    assert_eq!(
        first,
        "127.0.0.1 localhost\r\n\r\n# --- SWITCHHOSTS_CONTENT_START ---\r\n1.1.1.1 a\r\n"
    );
    assert_eq!(plan_system_hosts_write("1.1.1.1 a\n", &first, false, WriteMode::Append, true), None);
}

#[test]
fn plan_write_removes_duplicates_when_asked() {
    let res = plan_system_hosts_write("1.1.1.1 a\n1.1.1.1 a\n", "", true, WriteMode::Overwrite, false);
    assert_eq!(res, Some("1.1.1.1 a\n".to_string()));
}

#[test]
fn history_labels_and_settings() {
    assert_eq!(history_label(WriteMode::Append), "追加模式");
    assert_eq!(history_label(WriteMode::Overwrite), "覆盖模式");
    let mut c = AppConfig::default();
    c.write_mode = WriteMode::Overwrite;
    c.history_limit = 7;
    assert_eq!(get_write_mode(Some(&c)), WriteMode::Overwrite);
    assert_eq!(get_write_mode(None), WriteMode::Append);
    assert_eq!(get_history_limit(Some(&c)), 7);
    assert_eq!(get_history_limit(None), 50);
}

#[test]
fn toggle_flips_and_reports() {
    let mut config = AppConfig::default();
    config.choice_mode = 1;
    let list = vec![make_item("a", true), make_item("b", false)];
    let (l, on) = toggle_item(list, &config, "b").unwrap();
    assert!(on);
    assert!(!l[0].on);
    assert!(l[1].on);
    match toggle_item(vec![make_item("a", true)], &config, "z") {
        Err(HostzError::ItemNotFound { id }) => assert_eq!(id, "z"),
        other => panic!("unexpected {:?}", other),
    }
}

#[test]
fn refresh_helpers() {
    let remote = HostsListObject { url: Some("https://x/hosts".into()), ..make_item("r", true) };
    let list = vec![make_item("a", true), remote];
    assert_eq!(remote_url_of(&list, "r").unwrap(), "https://x/hosts");
    assert!(matches!(remote_url_of(&list, "a"), Err(HostzError::NotRemote)));
    assert!(matches!(remote_url_of(&list, "q"), Err(HostzError::ItemNotFound { .. })));
    let updated = mark_refreshed(&list, "r", 1234).unwrap();
    assert_eq!(updated[1].last_refresh_ms, Some(1234));
    assert_eq!(updated[0].last_refresh_ms, None);
}

#[test]
fn appended_marker_occurs_once() {
    for current in ["", "127.0.0.1 a", "127.0.0.1 a\n# --- SWITCHHOSTS_CONTENT_START ---\nold\n# --- SWITCHHOSTS_CONTENT_START ---\n"] {
        let r = make_append_content(current, "10.0.0.1 b\n");
        assert_eq!(r.matches(HOSTS_CONTENT_MARKER).count(), 1);
        assert_eq!(make_append_content(&r, "10.0.0.1 b\n"), r);
    }
}
