use hostz::error::HostzError;
use hostz::hosts_core::hosts_manager::history_entry;
use hostz::models::config::WriteMode;
use hostz::services::update::update_info_from_json;

#[test]
fn history_entry_carries_id_time_text_and_label() {
    let h = history_entry("id-1".to_string(), 1_700_000_000_000, "127.0.0.1 a\n".to_string(), WriteMode::Overwrite);
    assert_eq!(h.id, "id-1");
    assert_eq!(h.add_time_ms, 1_700_000_000_000);
    assert_eq!(h.content, "127.0.0.1 a\n");
    assert_eq!(h.label.as_deref(), Some("覆盖模式"));
    let h2 = history_entry("id-2".to_string(), 5, String::new(), WriteMode::Append);
    assert_eq!(h2.label.as_deref(), Some("追加模式"));
}

#[test]
fn release_json_is_read() {
    let text = r#"{"tag_name":"v9.1.0","html_url":"https://example.com/r","body":"notes","draft":false}"#;
    let info = update_info_from_json("0.1.0", text).unwrap();
    assert!(info.has_update);
    assert_eq!(info.latest_version, "9.1.0");
    assert_eq!(info.current_version, "0.1.0");
    assert_eq!(info.download_url, "https://example.com/r");
    assert_eq!(info.release_notes.as_deref(), Some("notes"));
}

#[test]
fn release_json_missing_fields_fall_back() {
    let info = update_info_from_json("1.2.0", r#"{"tag_name": 5}"#).unwrap();
    assert!(!info.has_update);
    assert_eq!(info.latest_version, "1.2.0");
    assert_eq!(info.download_url, "https://github.com/dorstar/hostz/releases");
    assert!(info.release_notes.is_none());
    let info = update_info_from_json("1.2.0", "[1, 2]").unwrap();
    assert_eq!(info.latest_version, "1.2.0");
}

#[test]
fn release_text_that_is_not_json_is_refused() {
    match update_info_from_json("1.0.0", "<html>rate limited</html>") {
        Err(e @ HostzError::InvalidRelease { .. }) => assert!(e.message().starts_with("解析响应失败: ")),
        _ => panic!("expected InvalidRelease"),
    }
}
