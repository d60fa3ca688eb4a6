use contextpilot::diff::{extract_details_with_tracking, shift_lines_after_insert, track_line_commit, LineCommitMap};
use contextpilot::utils::{is_similar, levenshtein};

#[test]
fn test_levenshtein_known_values() {
    assert_eq!(levenshtein("kitten", "sitting"), 3);
    assert_eq!(levenshtein("", "abc"), 3);
    assert_eq!(levenshtein("abc", ""), 3);
}

#[test]
fn test_levenshtein_symmetric_and_same() {
    assert_eq!(levenshtein("flaw", "lawn"), levenshtein("lawn", "flaw"));
    assert_eq!(levenshtein("same line", "same line"), 0);
}

#[test]
fn test_levenshtein_wide_characters() {
    // Distances count characters, not bytes.
    assert_eq!(levenshtein("a", "é"), 1);
    assert_eq!(levenshtein("é", "a"), 1);
    assert_eq!(levenshtein("", "é"), 1);
    assert_eq!(levenshtein("é", ""), 1);
    assert_eq!(levenshtein("héllo", "hello"), 1);
}

#[test]
fn test_is_similar_threshold() {
    assert!(is_similar("let a = 5;", "let a = 6;", 1));
    assert!(!is_similar("let a = 5;", "let b = 6;", 1));
}

#[test]
fn test_track_line_commit_twice_records_once() {
    let mut map = LineCommitMap::new();
    track_line_commit("f.rs", 4, "x".to_string(), "c1".to_string(), &mut map);
    track_line_commit("f.rs", 4, "x".to_string(), "c1".to_string(), &mut map);
    let (content, history) = map.get("f.rs").unwrap().get(&4).unwrap();
    assert_eq!(content, "x");
    assert_eq!(history, &vec!["c1".to_string()]);
    track_line_commit("f.rs", 4, "x".to_string(), "c2".to_string(), &mut map);
    let (_, history) = map.get("f.rs").unwrap().get(&4).unwrap();
    assert_eq!(history, &vec!["c1".to_string(), "c2".to_string()]);
}

#[test]
fn test_matching_records_nothing_more() {
    let mut with_deletion = LineCommitMap::new();
    extract_details_with_tracking(
        "c1",
        vec!["@@ -3,1 +3,1 @@".to_string(), "-let a = 5;".to_string(), "+let a = 6;".to_string()],
        "f.rs",
        &mut with_deletion,
    );
    let mut additions_only = LineCommitMap::new();
    extract_details_with_tracking(
        "c1",
        vec!["@@ -3,1 +3,1 @@".to_string(), "+let a = 6;".to_string()],
        "f.rs",
        &mut additions_only,
    );
    assert_eq!(
        with_deletion.get("f.rs").unwrap().get(&3),
        additions_only.get("f.rs").unwrap().get(&3)
    );
}

#[test]
fn test_hunk_without_count_keeps_line_number() {
    let mut map = LineCommitMap::new();
    extract_details_with_tracking(
        "c1",
        vec!["@@ -1 +1 @@".to_string(), "+a".to_string(), "context".to_string(), "+b".to_string()],
        "f.rs",
        &mut map,
    );
    let lines = map.get("f.rs").unwrap();
    assert_eq!(lines.get(&0).unwrap().0, "a");
    assert_eq!(lines.get(&2).unwrap().0, "b");
}

#[test]
fn test_shift_lines_by_nothing_and_absent_file() {
    let mut map = LineCommitMap::new();
    track_line_commit("f.rs", 2, "x".to_string(), "c1".to_string(), &mut map);
    shift_lines_after_insert("f.rs", 1, 0, &mut map);
    assert_eq!(map.get("f.rs").unwrap().get(&2).unwrap().0, "x");
    shift_lines_after_insert("g.rs", 1, 3, &mut map);
    assert!(map.get("g.rs").is_none());
    shift_lines_after_insert("f.rs", 3, 4, &mut map);
    assert_eq!(map.get("f.rs").unwrap().get(&2).unwrap().0, "x");
}

#[test]
fn test_levenshtein_zero_only_for_equal_lines() {
    assert_eq!(levenshtein("é", "é"), 0);
    assert_ne!(levenshtein("é", "e"), 0);
    assert_eq!(levenshtein("ab", "ba"), levenshtein("ba", "ab"));
}

#[test]
fn test_extract_twice_changes_nothing() {
    let diff = vec![
        "@@ -1,2 +1,2 @@".to_string(),
        "-old".to_string(),
        "+new".to_string(),
        "+more".to_string(),
    ];
    let mut map = LineCommitMap::new();
    track_line_commit("f.rs", 1, "new".to_string(), "c0".to_string(), &mut map);
    extract_details_with_tracking("c1", diff.clone(), "f.rs", &mut map);
    let once = map.get("f.rs").unwrap().clone();
    extract_details_with_tracking("c1", diff, "f.rs", &mut map);
    assert_eq!(map.get("f.rs").unwrap(), &once);
}

#[test]
fn test_extract_leaves_other_files() {
    let mut map = LineCommitMap::new();
    track_line_commit("g.rs", 1, "keep".to_string(), "c0".to_string(), &mut map);
    let before = map.get("g.rs").unwrap().clone();
    extract_details_with_tracking(
        "c1",
        vec!["@@ -1 +1,1 @@".to_string(), "+x".to_string()],
        "f.rs",
        &mut map,
    );
    assert_eq!(map.get("g.rs").unwrap(), &before);
    assert!(map.get("f.rs").is_some());
}

#[test]
fn test_two_shifts_are_one() {
    let mut twice = LineCommitMap::new();
    let mut once = LineCommitMap::new();
    for (n, c) in [(1u32, "a"), (3, "b"), (5, "c")] {
        track_line_commit("f.rs", n, c.to_string(), "c1".to_string(), &mut twice);
        track_line_commit("f.rs", n, c.to_string(), "c1".to_string(), &mut once);
    }
    shift_lines_after_insert("f.rs", 3, 2, &mut twice);
    shift_lines_after_insert("f.rs", 3, 4, &mut twice);
    shift_lines_after_insert("f.rs", 3, 6, &mut once);
    assert_eq!(twice.get("f.rs").unwrap(), once.get("f.rs").unwrap());
    assert_eq!(once.get("f.rs").unwrap().get(&9).unwrap().0, "b");
    assert_eq!(once.get("f.rs").unwrap().get(&1).unwrap().0, "a");
}
