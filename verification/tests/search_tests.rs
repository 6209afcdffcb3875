use hostz::hosts_core::search::{
    build_search_pattern, find_and_replace_all, find_by, find_positions_in_content,
    positions_from_spans, replace_all, replace_one, FindOptions,
};
use hostz::error::HostzError;
use hostz::models::hosts::{HostsContentObject, HostsListObject, HostsType};

fn make_item(id: &str, type_: HostsType, on: bool, title: &str) -> HostsListObject {
    HostsListObject {
        id: id.to_string(),
        title: title.to_string(),
        type_,
        on,
        content: None,
        url: None,
        refresh_interval: None,
        last_refresh_ms: None,
        included: None,
        order: 0,
    }
}

fn stored(id: &str, content: &str) -> HostsContentObject {
    HostsContentObject { id: id.to_string(), content: content.to_string() }
}

fn regex_of(p: &str) -> hostz::hosts_core::search::SearchPattern {
    build_search_pattern(p, FindOptions { is_regexp: true, is_ignore_case: false }).unwrap()
}

#[test]
fn test_find_positions_literal() {
    let content = "127.0.0.1 localhost\n# comment\n10.0.0.1 example.com\n";
    let regex = regex_of("localhost");
    let positions = find_positions_in_content(content, &regex);
    assert_eq!(positions.len(), 1);
    assert_eq!(positions[0].line, 1);
    assert!(positions[0].matched == "localhost");
}

#[test]
fn test_find_positions_case_insensitive() {
    let content = "127.0.0.1 LocalHost\n";
    let regex = build_search_pattern("localhost", FindOptions { is_regexp: true, is_ignore_case: true }).unwrap();
    let positions = find_positions_in_content(content, &regex);
    assert_eq!(positions.len(), 1);
}

#[test]
fn test_replace_one() {
    let content = "127.0.0.1 oldhost\n";
    let result = replace_one(content, 10, 17, "newhost");
    assert_eq!(result, "127.0.0.1 newhost\n");
}

#[test]
fn test_replace_all() {
    let content = "127.0.0.1 foo\n10.0.0.1 foo\n";
    let regex = regex_of("foo");
    let result = replace_all(content, &regex, "bar");
    assert_eq!(result, "127.0.0.1 bar\n10.0.0.1 bar\n");
}

#[test]
fn test_find_multiline_positions() {
    let content = "line1 abc\nline2 abc\nline3\n";
    let regex = regex_of("abc");
    let positions = find_positions_in_content(content, &regex);
    assert_eq!(positions.len(), 2);
    assert_eq!(positions[0].line, 1);
    assert_eq!(positions[1].line, 2);
    assert_eq!(positions[0].before, "line1 ");
    assert_eq!(positions[1].after, "");
}

#[test]
fn test_search_replace_full_flow() {
    let mut contents = vec![
        stored("item_a", "127.0.0.1 oldhost.local\n10.0.0.1 oldhost2.local\n"),
        stored("item_b", "192.168.1.1 oldhost.local\n"),
    ];
    let list = vec![
        make_item("item_a", HostsType::Local, true, "Item A"),
        make_item("item_b", HostsType::Local, true, "Item B"),
    ];

    let results = find_by(&list, &contents, "oldhost", FindOptions { is_regexp: false, is_ignore_case: false }).unwrap();
    assert_eq!(results.len(), 2);
    assert!(results[0].positions.len() >= 1);

    let results = find_by(&list, &contents, r"oldhost\d+", FindOptions { is_regexp: true, is_ignore_case: false }).unwrap();
    assert!(results.iter().any(|r| r.item_id == "item_a"));

    let (writes, count) = find_and_replace_all(&list, &contents, "oldhost", "newhost",
        FindOptions { is_regexp: false, is_ignore_case: false }).unwrap();
    assert_eq!(count, 2);
    for w in writes {
        for c in contents.iter_mut() {
            if c.id == w.id {
                c.content = w.content.clone();
            }
        }
    }

    let content_a = contents[0].content.clone();
    assert!(!content_a.contains("oldhost"));
    assert!(content_a.contains("newhost"));

    let results_after = find_by(&list, &contents, "oldhost", FindOptions { is_regexp: false, is_ignore_case: false }).unwrap();
    assert!(results_after.is_empty());
}

#[test]
fn test_multiline_regex_no_panic() {
    let list = vec![make_item("m", HostsType::Local, true, "Multi")];
    let contents = vec![stored("m", "line1 abc\nline2 def\nline3 ghi\n")];
    let options = FindOptions { is_regexp: true, is_ignore_case: false };
    let results = find_by(&list, &contents, "(?s)abc.*def", options).unwrap_or_default();
    let _ = results.len();
}

#[test]
fn test_search_empty_content() {
    let list = vec![make_item("e", HostsType::Local, true, "Empty")];
    let options = FindOptions::default();
    let results = find_by(&list, &[], "anything", options).unwrap();
    assert!(results.is_empty());
}

#[test]
fn multiline_match_positions_in_bytes() {
    let content = "ab\ncd\nef";
    let positions = positions_from_spans(content, &vec![(1, 4), (6, 8)]);
    assert_eq!(positions[0].line, 1);
    assert_eq!(positions[0].line_pos, 1);
    assert_eq!(positions[0].end_line, 2);
    assert_eq!(positions[0].end_line_pos, 1);
    assert_eq!(positions[0].before, "a");
    assert_eq!(positions[0].matched, "b\nc");
    assert_eq!(positions[0].after, "d");
    assert_eq!(positions[1].line, 3);
    assert_eq!(positions[1].matched, "ef");
    assert_eq!(positions[1].after, "");
}

#[test]
fn positions_count_bytes_of_wide_characters() {
    let content = "# 注释\n1.1.1.1 a";
    let positions = positions_from_spans(content, &vec![(17, 18)]);
    assert_eq!(positions[0].line, 2);
    assert_eq!(positions[0].line_pos, 8);
    assert_eq!(positions[0].before, "1.1.1.1 ");
    assert_eq!(positions[0].matched, "a");
}

#[test]
fn span_inside_a_character_gives_empty_text() {
    let positions = positions_from_spans("注", &vec![(1, 2)]);
    assert_eq!(positions[0].matched, "");
    assert_eq!(positions[0].line, 1);
}

#[test]
fn invalid_pattern_is_reported() {
    let r = find_by(&[], &[], "(", FindOptions { is_regexp: true, is_ignore_case: false });
    assert!(matches!(r, Err(HostzError::InvalidPattern { .. })));
    let r = find_by(&[], &[], "(", FindOptions { is_regexp: false, is_ignore_case: false });
    assert!(r.is_ok());
}

#[test]
fn replace_all_skips_groups_and_remote_entries() {
    let list = vec![
        make_item("l", HostsType::Local, true, "L"),
        make_item("r", HostsType::Remote, true, "R"),
    ];
    let contents = vec![stored("l", "x x"), stored("r", "x")];
    let (writes, count) = find_and_replace_all(&list, &contents, "x", "y", FindOptions::default()).unwrap();
    assert_eq!(count, 1);
    assert_eq!(writes.len(), 1);
    assert_eq!(writes[0].id, "l");
    assert_eq!(writes[0].content, "y y");
}

#[test]
fn find_reports_remote_entries_too() {
    let list = vec![
        make_item("r", HostsType::Remote, true, "R"),
        make_item("g", HostsType::Group, true, "G"),
    ];
    let contents = vec![stored("r", "abc"), stored("g", "abc")];
    let res = find_by(&list, &contents, "b", FindOptions::default()).unwrap();
    assert_eq!(res.len(), 1);
    assert_eq!(res[0].item_id, "r");
    assert_eq!(res[0].item_title, "R");
    assert_eq!(res[0].positions[0].start, 1);
}

#[test]
fn replace_one_with_same_text_is_identity() {
    let content = "注释 abc";
    assert_eq!(replace_one(content, 3, 7, "释 "), content);
}

#[test]
fn replace_one_length_and_round_trip() {
    let content = "127.0.0.1 旧主机\n10.0.0.1 b\n";
    let start = "127.0.0.1 ".len();
    let end = start + "旧主机".len();
    let r = replace_one(content, start, end, "new-host");
    assert_eq!(r, "127.0.0.1 new-host\n10.0.0.1 b\n");
    assert_eq!(r.len(), content.len() - (end - start) + "new-host".len());
    let back = replace_one(&r, start, start + "new-host".len(), &content[start..end]);
    assert_eq!(back, content);
}

#[test]
fn literal_queries_match_meta_characters_literally() {
    let lit = FindOptions { is_regexp: false, is_ignore_case: false };
    let p = build_search_pattern("a.b(c)", lit).unwrap();
    assert_eq!(find_positions_in_content("axb(c) a.bc a.b(c)", &p).len(), 1);
    assert_eq!(find_positions_in_content("axb(c) a.bc a.b(c)", &p)[0].start, 12);
    let p = build_search_pattern("[x]", lit).unwrap();
    assert!(find_positions_in_content("x", &p).is_empty());
    assert_eq!(find_positions_in_content("[x]", &p).len(), 1);
    // The same text as a regular expression is refused or means something else.
    assert!(build_search_pattern("a(", FindOptions { is_regexp: true, is_ignore_case: false }).is_err());
    assert!(build_search_pattern("a(", lit).is_ok());
}

#[test]
fn replacing_can_form_a_new_match() {
    let list = vec![make_item("a", HostsType::Local, true, "A")];
    let contents = vec![stored("a", "abb\n")];
    let lit = FindOptions { is_regexp: false, is_ignore_case: false };
    let (writes, count) = find_and_replace_all(&list, &contents, "ab", "a", lit).unwrap();
    assert_eq!(count, 1);
    assert_eq!(writes[0].content, "ab\n");
    let after = vec![stored("a", &writes[0].content)];
    assert_eq!(find_by(&list, &after, "ab", lit).unwrap().len(), 1);
}
