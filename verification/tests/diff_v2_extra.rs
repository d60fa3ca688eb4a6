use contextpilot::diff_v2::{
    categorize_diff, fetch_line_numbers, find_replacements, is_similar, parse_diff, read_content, read_hunk_range,
    reorder_map, ChangeType, DiffCases, LineChange, LineDetail,
};
use std::collections::HashMap;

fn detail(content: &str, hashes: &[&str]) -> Vec<LineDetail> {
    vec![LineDetail {
        content: content.to_string(),
        commit_hashes: hashes.iter().map(|h| h.to_string()).collect(),
    }]
}

fn sample_map(n: u32) -> HashMap<u32, Vec<LineDetail>> {
    let mut map = HashMap::new();
    for i in 1..=n {
        map.insert(i, detail(&format!("line{}", i), &["commit1"]));
    }
    map
}

#[test]
fn test_line_change_default() {
    let c = LineChange::default();
    assert_eq!(c.start_line_number, 0);
    assert_eq!(c.change_count, 0);
    assert_eq!(c.change_type, ChangeType::Added);
    assert!(c.changed_content.is_empty());
}

#[test]
fn test_category_agrees_with_fetched_counts() {
    let (before, after) = fetch_line_numbers("-3,4 +5".to_string()).unwrap();
    assert_eq!((before.change_count, after.change_count), (4, 1));
    assert_eq!(categorize_diff("-3,4 +5"), Some(DiffCases::FewLinesReplacedWithSingleLine));
    assert_eq!(categorize_diff("-3,0 +5,0"), Some(DiffCases::NoneFound));
}

#[test]
fn test_fetch_rejects_counts_beyond_u32() {
    assert!(read_hunk_range("-1,99999999999 +1").is_none());
    assert_eq!(
        categorize_diff("-1,99999999999 +1"),
        Some(DiffCases::FewLinesReplacedWithSingleLine)
    );
    assert!(read_hunk_range("-1 +1 ").is_none());
    assert!(read_hunk_range("-1 +1").is_some());
    assert_eq!(categorize_diff("-1  +1"), Some(DiffCases::SingleLineReplacedWithAnotherSingleLine));
}

#[test]
fn test_is_similar_means_equal() {
    assert!(is_similar("a line", "a line"));
    assert!(!is_similar("a line", "a line "));
}

#[test]
fn test_find_replacements_pairs() {
    let deleted = vec!["x".to_string(), "y".to_string()];
    let added = vec!["y".to_string(), "x".to_string(), "x".to_string()];
    assert_eq!(find_replacements(deleted, added), vec![1, 2, 0]);
}

#[test]
fn test_read_content_fills_start_line() {
    let lines: Vec<String> = vec!["-a", "+b", "+c", "@@ x"].iter().map(|s| s.to_string()).collect();
    let mut pos = 0;
    let mut map = HashMap::new();
    let (deleted, added) = read_content(&lines, &mut pos, 1, 2, &mut map, Some(7));
    assert_eq!(deleted, vec!["-a".to_string()]);
    assert_eq!(added, vec!["+b".to_string(), "+c".to_string()]);
    assert_eq!(pos, 3);
    assert_eq!(map.len(), 2);
    assert_eq!(map.get(&7).unwrap()[0].content, "+b");
    assert_eq!(map.get(&8).unwrap()[0].content, "+c");
    assert!(map.get(&7).unwrap()[0].commit_hashes.is_empty());
    assert!(map.get(&8).unwrap()[0].commit_hashes.is_empty());
}

#[test]
fn test_read_content_keeps_other_lines() {
    let lines: Vec<String> = vec!["+x".to_string()];
    let mut pos = 0;
    let mut map = sample_map(3);
    read_content(&lines, &mut pos, 0, 1, &mut map, Some(2));
    assert_eq!(map.len(), 3);
    assert_eq!(map.get(&1).unwrap()[0].content, "line1");
    assert_eq!(map.get(&2).unwrap()[0].content, "+x");
    assert_eq!(map.get(&3).unwrap()[0].content, "line3");
}

#[test]
fn test_read_content_stops_at_the_end() {
    let lines: Vec<String> = vec!["-a".to_string()];
    let mut pos = 0;
    let mut map = HashMap::new();
    let (deleted, added) = read_content(&lines, &mut pos, 3, 2, &mut map, None);
    assert_eq!(deleted, vec!["-a".to_string()]);
    assert!(added.is_empty());
    assert_eq!(pos, 1);
    assert!(map.is_empty());
}

#[test]
fn test_parse_diff_first_hunk_on_empty_map() {
    let mut map = HashMap::new();
    let diff = "diff --git a/f b/f\n@@ -0,0 +3,2 @@ fn x\n+one\n+two\n".to_string();
    assert_eq!(parse_diff("c1".to_string(), diff, &mut map), Ok(()));
    assert_eq!(map.len(), 2);
    assert_eq!(map.get(&3).unwrap()[0].content, "+one");
    assert_eq!(map.get(&4).unwrap()[0].content, "+two");
}

#[test]
fn test_parse_diff_applies_later_hunks() {
    let mut map = sample_map(3);
    let diff = "@@ -1,0 +2,1 @@\n+new line\n".to_string();
    assert_eq!(parse_diff("c2".to_string(), diff, &mut map), Ok(()));
    assert_eq!(map.len(), 4);
    assert_eq!(map.get(&2).unwrap()[0].content, "+new line");
    assert_eq!(map.get(&2).unwrap()[0].commit_hashes, vec!["c2".to_string()]);
    assert_eq!(map.get(&3).unwrap()[0].content, "line2");
    assert_eq!(map.get(&4).unwrap()[0].content, "line3");
}

#[test]
fn test_parse_diff_errors() {
    let mut map = HashMap::new();
    assert_eq!(
        parse_diff("c".to_string(), "@@ -1 +1\n".to_string(), &mut map),
        Err("hunk header without a closing @@".to_string())
    );
    assert_eq!(
        parse_diff("c".to_string(), "@@ -x +1 @@\n".to_string(), &mut map),
        Err("hunk range is not of the form -a[,b] +c[,d]".to_string())
    );
    let mut map = sample_map(2);
    assert_eq!(
        parse_diff("c".to_string(), "@@ -9 +9 @@\n-a\n+b\n".to_string(), &mut map),
        Err("hunk does not fit the tracked lines".to_string())
    );
    assert_eq!(map.len(), 2);
    let mut map = sample_map(2);
    assert_eq!(
        parse_diff("c".to_string(), "@@ -4294967295 +1,2 @@\nsame\nother\nsame\n".to_string(), &mut map),
        Err("line number out of range".to_string())
    );
}

#[test]
fn test_delete_undoes_add() {
    let before = sample_map(5);
    let mut map = sample_map(5);
    reorder_map(
        "c2".to_string(),
        Some(DiffCases::NewLinesAdded),
        &mut map,
        LineChange { start_line_number: 0, change_count: 0, change_type: ChangeType::Deleted, changed_content: vec![] },
        LineChange {
            start_line_number: 3,
            change_count: 2,
            change_type: ChangeType::Added,
            changed_content: vec!["n1".to_string(), "n2".to_string()],
        },
        vec![],
    );
    assert_eq!(map.len(), 7);
    reorder_map(
        "c3".to_string(),
        Some(DiffCases::FewLinesDeleted),
        &mut map,
        LineChange { start_line_number: 3, change_count: 2, change_type: ChangeType::Deleted, changed_content: vec![] },
        LineChange { start_line_number: 3, change_count: 0, change_type: ChangeType::Added, changed_content: vec![] },
        vec![],
    );
    assert_eq!(map.len(), before.len());
    for (k, v) in before.iter() {
        assert_eq!(map.get(k).unwrap()[0].content, v[0].content);
        assert_eq!(map.get(k).unwrap()[0].commit_hashes, v[0].commit_hashes);
    }
}

#[test]
fn test_reorder_none_found_keeps_map() {
    let mut map = sample_map(3);
    reorder_map(
        "c2".to_string(),
        Some(DiffCases::NoneFound),
        &mut map,
        LineChange::default(),
        LineChange::default(),
        vec![],
    );
    assert_eq!(map.len(), 3);
    assert_eq!(map.get(&1).unwrap()[0].content, "line1");
    reorder_map("c2".to_string(), None, &mut map, LineChange::default(), LineChange::default(), vec![]);
    assert_eq!(map.len(), 3);
}

#[test]
fn test_few_lines_replaced_by_one_moves_later_lines_up() {
    let mut map = sample_map(5);
    reorder_map(
        "c2".to_string(),
        Some(DiffCases::FewLinesReplacedWithSingleLine),
        &mut map,
        LineChange { start_line_number: 1, change_count: 2, change_type: ChangeType::Deleted, changed_content: vec![] },
        LineChange {
            start_line_number: 1,
            change_count: 1,
            change_type: ChangeType::Added,
            changed_content: vec!["joined".to_string()],
        },
        vec![],
    );
    assert_eq!(map.len(), 3);
    assert!(map.get(&1).is_none());
    assert_eq!(map.get(&2).unwrap()[0].content, "line3");
    assert_eq!(map.get(&3).unwrap()[0].content, "line4");
    assert_eq!(map.get(&4).unwrap()[0].content, "line5");
    assert!(map.get(&5).is_none());
}
