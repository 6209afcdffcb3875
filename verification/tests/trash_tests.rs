use hostz::hosts_core::content_parser::find_item_by_id;
use hostz::hosts_core::trash::{
    clear_trashcan, collect_all_ids, move_to_trashcan, permanently_delete, restore_from_trashcan,
};
use hostz::error::HostzError;
use hostz::models::hosts::{HostsContentObject, HostsListObject, HostsType, TrashcanItem};

fn make_item(id: &str, type_: HostsType, on: bool, title: &str) -> HostsListObject {
    HostsListObject {
        id: id.to_string(),
        title: title.to_string(),
        type_,
        on,
        content: None,
        url: None,
        refresh_interval: None,
        last_refresh_ms: None,
        included: None,
        order: 0,
    }
}

#[test]
fn test_collect_all_ids_group() {
    let group = HostsListObject {
        included: Some(vec!["inc1".to_string(), "inc2".to_string()]),
        ..make_item("group1", HostsType::Group, false, "group1")
    };
    let ids = collect_all_ids(&group);
    assert_eq!(ids.len(), 3);
    assert!(ids.contains(&"inc1".to_string()));
}

#[test]
fn test_trash_collect_ids_for_group() {
    let mut group = make_item("g1", HostsType::Group, true, "Group");
    group.included = Some(vec!["ref1".to_string(), "ref2".to_string()]);
    let ids = collect_all_ids(&group);
    assert!(ids.contains(&"g1".to_string()));
    assert!(ids.contains(&"ref1".to_string()));
    assert!(ids.contains(&"ref2".to_string()));
    assert_eq!(ids.len(), 3);
}

#[test]
fn test_trashcan_full_flow() {
    let item = make_item("test1", HostsType::Local, true, "Test Item");
    let mut contents = vec![HostsContentObject { id: "test1".into(), content: "127.0.0.1 test.local\n".into() }];
    let mut list = vec![item.clone()];
    let mut trash: Vec<TrashcanItem> = Vec::new();

    let (new_list, t) = move_to_trashcan(&list, "test1", 1_700_000_000_000).unwrap();
    list = new_list;
    trash.insert(0, t);

    assert!(find_item_by_id(&list, "test1").is_none());
    assert_eq!(trash.len(), 1);
    assert_eq!(trash[0].data.id, "test1");
    assert_eq!(trash[0].data.on, false);
    assert!(trash[0].add_time_ms > 0);

    list = restore_from_trashcan(&trash, list, "test1").unwrap();
    trash.retain(|t| t.data.id != "test1");
    assert!(find_item_by_id(&list, "test1").is_some());
    assert!(trash.is_empty());

    let (new_list, t) = move_to_trashcan(&list, "test1", 1_700_000_000_001).unwrap();
    list = new_list;
    trash.insert(0, t);
    let ids = permanently_delete(&trash, "test1").unwrap();
    contents.retain(|c| !ids.contains(&c.id));
    trash.retain(|t| t.data.id != "test1");

    assert!(contents.iter().all(|c| c.id != "test1"));
    assert!(trash.is_empty());
    assert!(list.is_empty());
}

#[test]
fn trash_lookups_report_missing_ids() {
    assert!(matches!(move_to_trashcan(&[], "x", 1), Err(HostzError::ItemNotFound { .. })));
    assert!(matches!(restore_from_trashcan(&[], vec![], "x"), Err(HostzError::TrashItemNotFound { .. })));
    assert!(matches!(permanently_delete(&[], "x"), Err(HostzError::TrashItemNotFound { .. })));
}

#[test]
fn clearing_collects_every_id() {
    let g = HostsListObject {
        included: Some(vec!["a".into()]),
        ..make_item("g", HostsType::Group, false, "G")
    };
    let trash = vec![
        TrashcanItem { data: g, parent_id: None, add_time_ms: 2 },
        TrashcanItem { data: make_item("b", HostsType::Local, false, "B"), parent_id: None, add_time_ms: 1 },
    ];
    assert_eq!(clear_trashcan(&trash), vec!["g".to_string(), "a".to_string(), "b".to_string()]);
}

#[test]
fn restored_entry_goes_to_the_end_switched_off() {
    let list = vec![make_item("a", HostsType::Local, true, "A"), make_item("b", HostsType::Local, true, "B")];
    let (rest, t) = move_to_trashcan(&list, "a", 5).unwrap();
    assert_eq!(t.add_time_ms, 5);
    let back = restore_from_trashcan(&[t], rest, "a").unwrap();
    assert_eq!(back.len(), 2);
    assert_eq!(back[0].id, "b");
    assert_eq!(back[1].id, "a");
    assert!(!back[1].on);
}
