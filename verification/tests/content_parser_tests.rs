use hostz::hosts_core::content_parser::{
    delete_item_by_id, find_item_by_id, find_item_by_id_mut, flatten, get_content_of_hosts,
    get_enabled_content, get_next_selected_item, remove_duplicate_lines, set_on_state_of_item,
    update_one_item,
};
use hostz::error::HostzError;
use hostz::models::hosts::{HostsContentObject, HostsListObject, HostsType};

fn make_item(id: &str, type_: HostsType, on: bool) -> HostsListObject {
    HostsListObject {
        id: id.to_string(),
        title: id.to_string(),
        type_,
        on,
        content: None,
        url: None,
        refresh_interval: None,
        last_refresh_ms: None,
        included: None,
        order: 0,
    }
}

fn make_titled(id: &str, type_: HostsType, on: bool, title: &str) -> HostsListObject {
    HostsListObject { title: title.to_string(), ..make_item(id, type_, on) }
}

fn stored(id: &str, content: &str) -> HostsContentObject {
    HostsContentObject { id: id.to_string(), content: content.to_string() }
}

#[test]
fn test_flatten() {
    let list = vec![
        make_item("a", HostsType::Local, true),
        make_item("b", HostsType::Local, false),
    ];
    let flat = flatten(&list);
    assert_eq!(flat.len(), 2);
}

#[test]
fn test_find_item_by_id() {
    let list = vec![
        make_item("a", HostsType::Local, true),
        make_item("b", HostsType::Remote, false),
    ];
    assert!(find_item_by_id(&list, "a").is_some());
    assert!(find_item_by_id(&list, "nonexistent").is_none());
}

#[test]
fn test_delete_item_by_id() {
    let list = vec![
        make_item("a", HostsType::Local, true),
        make_item("b", HostsType::Local, false),
    ];
    let result = delete_item_by_id(&list, "a");
    assert_eq!(result.len(), 1);
    assert_eq!(result[0].id, "b");
}

#[test]
fn test_set_on_state_single_choice() {
    let list = vec![
        make_item("a", HostsType::Local, true),
        make_item("b", HostsType::Local, false),
    ];
    let result = set_on_state_of_item(list, "b", true, 1, false);
    let a = find_item_by_id(&result, "a").unwrap();
    let b = find_item_by_id(&result, "b").unwrap();
    assert!(b.on);
    assert!(!a.on);
}

#[test]
fn test_flatten_roundtrip_preserves_ids() {
    let list = vec![
        make_titled("a", HostsType::Local, true, "A"),
        make_titled("b", HostsType::Remote, false, "B"),
    ];
    let flat = flatten(&list);
    assert_eq!(flat.len(), 2);
    let ids: Vec<&str> = flat.iter().map(|i| i.id.as_str()).collect();
    assert!(ids.contains(&"a"));
    assert!(ids.contains(&"b"));
}

#[test]
fn test_toggle_logic() {
    let item1 = make_titled("item1", HostsType::Local, false, "Item 1");
    let item2 = make_titled("item2", HostsType::Local, true, "Item 2");
    let stored_list = vec![item1, item2];

    let list = stored_list.clone();
    let new_list = set_on_state_of_item(list, "item1", true, 1, false);
    let i1 = find_item_by_id(&new_list, "item1").unwrap();
    let i2 = find_item_by_id(&new_list, "item2").unwrap();
    assert!(i1.on, "item1 应开启");
    assert!(!i2.on, "item2 应被关闭");

    let list = stored_list.clone();
    let new_list = set_on_state_of_item(list.clone(), "item1", true, 2, false);
    let new_list = set_on_state_of_item(new_list, "item2", true, 2, false);
    let i1 = find_item_by_id(&new_list, "item1").unwrap();
    let i2 = find_item_by_id(&new_list, "item2").unwrap();
    assert!(i1.on, "多选模式 item1 应开启");
    assert!(i2.on, "多选模式 item2 也应开启");
}

#[test]
fn test_content_resolution_recursive() {
    let contents = vec![
        stored("local1", "127.0.0.1 localhost\n"),
        stored("remote1", "# remote content\n10.0.0.1 api.example.com\n"),
    ];
    let local_item = make_titled("local1", HostsType::Local, true, "Local");
    let remote_item = HostsListObject {
        url: Some("https://example.com/hosts".into()),
        ..make_titled("remote1", HostsType::Remote, true, "Remote")
    };
    let group = HostsListObject {
        id: "group1".into(),
        title: "Test Group".into(),
        type_: HostsType::Group,
        on: true,
        included: Some(vec!["local1".into(), "remote1".into()]),
        ..make_item("", HostsType::Group, false)
    };
    let list = vec![group, local_item, remote_item];

    let local_content = get_content_of_hosts(&list, &contents, "local1").unwrap();
    assert!(local_content.contains("localhost"));

    let group_content = get_content_of_hosts(&list, &contents, "group1").unwrap();
    assert!(group_content.contains("# file: Local"));
    assert!(group_content.contains("# file: Remote"));
}

#[test]
fn test_get_enabled_content() {
    let contents = vec![
        stored("enabled1", "127.0.0.1 enabled.local\n"),
        stored("disabled1", "10.0.0.1 disabled.local\n"),
    ];
    let list = vec![
        make_titled("enabled1", HostsType::Local, true, "Enabled"),
        make_titled("disabled1", HostsType::Local, false, "Disabled"),
    ];
    let content = get_enabled_content(&list, &contents).unwrap();
    assert!(content.contains("enabled.local"));
    assert!(!content.contains("disabled.local"), "禁用条目不应出现在输出中");
}

#[test]
fn group_text_has_headers_and_empty_line_between_parts() {
    let contents = vec![stored("a", "1.1.1.1 a"), stored("b", "2.2.2.2 b")];
    let group = HostsListObject {
        included: Some(vec!["a".into(), "missing".into(), "b".into()]),
        ..make_titled("g", HostsType::Group, true, "G")
    };
    let list = vec![group, make_titled("a", HostsType::Local, false, "A"), make_titled("b", HostsType::Remote, false, "B")];
    let text = get_content_of_hosts(&list, &contents, "g").unwrap();
    assert_eq!(text, "# file: A\n1.1.1.1 a\n\n# file: B\n2.2.2.2 b");
}

#[test]
fn content_of_unknown_id_is_an_error() {
    let list = vec![make_item("a", HostsType::Local, true)];
    match get_content_of_hosts(&list, &[], "zz") {
        Err(HostzError::ItemNotFound { id }) => assert_eq!(id, "zz"),
        other => panic!("unexpected {:?}", other),
    }
}

#[test]
fn local_entry_without_stored_text_is_empty() {
    let list = vec![make_item("a", HostsType::Local, true)];
    assert_eq!(get_content_of_hosts(&list, &[], "a").unwrap(), "");
}

#[test]
fn group_that_includes_itself_is_reported() {
    let g = HostsListObject {
        included: Some(vec!["g".into()]),
        ..make_item("g", HostsType::Group, true)
    };
    match get_content_of_hosts(&[g], &[], "g") {
        Err(HostzError::IncludeTooDeep { id }) => assert_eq!(id, "g"),
        other => panic!("unexpected {:?}", other),
    }
}

#[test]
fn enabled_content_joins_with_empty_line_and_skips_empty_texts() {
    let contents = vec![stored("a", "A"), stored("c", "C")];
    let list = vec![
        make_item("a", HostsType::Local, true),
        make_item("b", HostsType::Local, true),
        make_item("c", HostsType::Local, true),
    ];
    assert_eq!(get_enabled_content(&list, &contents).unwrap(), "A\n\nC");
}

#[test]
fn update_one_item_replaces_matching_entries() {
    let list = vec![make_item("a", HostsType::Local, false), make_item("b", HostsType::Local, false)];
    let updated = make_titled("b", HostsType::Remote, true, "New");
    let res = update_one_item(&list, &updated);
    assert_eq!(res.len(), 2);
    assert_eq!(res[0].title, "a");
    assert_eq!(res[1].title, "New");
    assert!(res[1].on);
}

#[test]
fn next_selected_item_is_the_following_entry() {
    let list = vec![make_item("a", HostsType::Local, false), make_item("b", HostsType::Local, false)];
    assert_eq!(get_next_selected_item(&list, "a"), Some("b".to_string()));
    assert_eq!(get_next_selected_item(&list, "b"), None);
    assert_eq!(get_next_selected_item(&list, "x"), None);
}

#[test]
fn find_mut_changes_the_first_match() {
    let mut list = vec![make_item("a", HostsType::Local, false), make_item("a", HostsType::Local, false)];
    if let Some(item) = find_item_by_id_mut(&mut list, "a") {
        item.on = true;
    }
    assert!(list[0].on);
    assert!(!list[1].on);
    assert!(find_item_by_id_mut(&mut list, "zz").is_none());
}

#[test]
fn switching_off_leaves_others() {
    let list = vec![make_item("a", HostsType::Local, true), make_item("b", HostsType::Local, true)];
    let res = set_on_state_of_item(list, "a", false, 1, false);
    assert!(!res[0].on);
    assert!(res[1].on);
}

#[test]
fn duplicate_records_are_removed() {
    let text = "1.1.1.1 a\n# c\n# c\n\n1.1.1.1  a extra\n2.2.2.2 a\n1.1.1.1 b\n";
    assert_eq!(remove_duplicate_lines(text), "1.1.1.1 a\n# c\n# c\n\n2.2.2.2 a\n1.1.1.1 b\n");
    assert_eq!(remove_duplicate_lines(""), "");
}

#[test]
fn test_remove_duplicate_lines_basic() {
    let text = "127.0.0.1 example.com\n10.0.0.1 other.com\n127.0.0.1 example.com\n";
    assert_eq!(remove_duplicate_lines(text), "127.0.0.1 example.com\n10.0.0.1 other.com\n");
}

#[test]
fn test_remove_duplicate_lines_keeps_comments() {
    let text = "# block\n127.0.0.1 a.com\n# block\n127.0.0.1 a.com\n#127.0.0.1 a.com\n#127.0.0.1 a.com\n";
    assert_eq!(remove_duplicate_lines(text), "# block\n127.0.0.1 a.com\n# block\n#127.0.0.1 a.com\n#127.0.0.1 a.com\n");
}

#[test]
fn test_remove_duplicate_lines_different_ip_same_host() {
    let text = "127.0.0.1 a.com\n10.0.0.1 a.com\n";
    assert_eq!(remove_duplicate_lines(text), text);
}

#[test]
fn test_remove_duplicate_lines_empty() {
    assert_eq!(remove_duplicate_lines(""), "");
    assert_eq!(remove_duplicate_lines("\n"), "\n");
}

#[test]
fn test_remove_duplicate_lines_preserves_newlines() {
    let text = "1.1.1.1 a\n\n\n1.1.1.1 a\n2.2.2.2 b\n\n";
    assert_eq!(remove_duplicate_lines(text), "1.1.1.1 a\n\n\n2.2.2.2 b\n\n");
}

#[test]
fn removing_duplicates_twice_is_removing_once() {
    let text = "1.1.1.1 a\n1.1.1.1 a b\n# x\n2.2.2.2 c\n\n2.2.2.2\tc\n";
    let once = remove_duplicate_lines(text);
    assert_eq!(once, "1.1.1.1 a\n# x\n2.2.2.2 c\n\n");
    assert_eq!(remove_duplicate_lines(&once), once);
}
