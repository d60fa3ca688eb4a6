use contextpilot::contextgpt_structs::AuthorDetailsV2;
use contextpilot::db::{count_changed_files, hashes_in_range, shard_file_path, IndexState, DB};
use contextpilot::string_map::StringMap;
use std::collections::HashMap;

fn details(line: usize, hashes: &[&str]) -> AuthorDetailsV2 {
    AuthorDetailsV2 {
        line_number: line,
        origin_file_path: "f.rs".to_string(),
        commit_hashes: hashes.iter().map(|h| h.to_string()).collect(),
        author_full_name: vec![],
    }
}

fn strings(v: &[&str]) -> Vec<String> {
    v.iter().map(|s| s.to_string()).collect()
}

#[test]
fn test_get_available_index() {
    let db = DB::default();
    let mut mapping: StringMap<Vec<u32>> = StringMap::new();
    assert_eq!(db.get_available_index(&mapping), 1);
    mapping.insert("a.rs".to_string(), vec![3, 7]);
    mapping.insert("b.rs".to_string(), vec![5]);
    assert_eq!(db.get_available_index(&mapping), 8);
    mapping.insert("last_used_index".to_string(), vec![]);
    assert_eq!(db.get_available_index(&mapping), 8);
    mapping.insert("last_used_index".to_string(), vec![2, 9]);
    assert_eq!(db.get_available_index(&mapping), 2);
}

#[test]
fn test_limit_crossed() {
    let mut db = DB::default();
    assert!(!db._is_limit_crossed());
    db.curr_items = 30;
    assert!(db._is_limit_crossed());
}

#[test]
fn test_append_to_db_extends_lines() {
    let mut db = DB::default();
    let mut data = HashMap::new();
    data.insert(1, details(4, &["c1"]));
    data.insert(2, details(6, &["c2", "c3"]));
    db.append_to_db(&"f.rs".to_string(), 0, data);
    assert_eq!(db.curr_items, 2);
    assert_eq!(db.curr_file_path, "f.rs");
    let mut more = HashMap::new();
    more.insert(9, details(4, &["c4"]));
    db.append_to_db(&"f.rs".to_string(), 0, more);
    assert_eq!(db.curr_items, 3);
    assert_eq!(db.current_data_v2.get(&4).unwrap(), &strings(&["c1", "c4"]));
    assert_eq!(db.current_data_v2.get(&6).unwrap(), &strings(&["c2", "c3"]));
    db.append_to_db(&"g.rs".to_string(), 0, HashMap::new());
    assert_eq!(db.curr_items, 3);
    assert_eq!(db.curr_file_path, "g.rs");
}

#[test]
fn test_raw_exists_and_return_uses_nearest_line_above() {
    let mut db = DB::default();
    db.current_data_v2.insert(3, strings(&["a"]));
    db.current_data_v2.insert(7, strings(&["b", "c"]));
    let (hashes, uncovered) = db.raw_exists_and_return(&2, &4);
    assert_eq!(hashes, strings(&["a", "a", "b", "c"]));
    assert!(uncovered.is_empty());
    let (hashes, uncovered) = db.raw_exists_and_return(&7, &9);
    assert_eq!(hashes, strings(&["b", "c"]));
    assert_eq!(uncovered, vec![8, 9]);
    let (hashes, uncovered) = db.raw_exists_and_return(&5, &4);
    assert!(hashes.is_empty() && uncovered.is_empty());
}

#[test]
fn test_exists_and_return_counts_files() {
    let mut db = DB::default();
    db.current_data_v2.insert(3, strings(&["a", "b"]));
    db.current_data_v2.insert(4, strings(&["a"]));
    let mut files: StringMap<Vec<String>> = StringMap::new();
    files.insert("a".to_string(), strings(&["x.rs", "y.rs"]));
    files.insert("b".to_string(), strings(&["x.rs"]));
    let (counts, uncovered) = db.exists_and_return(&2, &5, &files);
    assert_eq!(uncovered, vec![2, 5]);
    assert_eq!(counts.len(), 2);
    assert_eq!(counts.get("x.rs"), Some(&3));
    assert_eq!(counts.get("y.rs"), Some(&2));
    // Every line that the nearest-line lookup leaves uncovered also lacks data.
    let (_, raw_uncovered) = db.raw_exists_and_return(&2, &5);
    assert!(raw_uncovered.iter().all(|l| uncovered.contains(l)));
}

#[test]
fn test_find_index() {
    let mut db = DB::default();
    db.folder_path = "/db".to_string();
    assert_eq!(db.find_index("f.rs"), None);
    db.mapping_data.insert("f.rs".to_string(), vec![0, 2]);
    assert_eq!(db.find_index("f.rs"), Some(vec![0, 2]));
    assert_eq!(db.find_index("g.rs"), None);
    assert_eq!(db.index, 3);
    assert_eq!(db.db_file_path, "/db/3.json");
    assert_eq!(db.mapping_data.get("g.rs"), Some(&vec![3]));
    assert_eq!(db.find_index("g.rs"), Some(vec![3]));
}

#[test]
fn test_store_bookkeeping() {
    let mut db = DB::default();
    db.curr_file_path = "f.rs".to_string();
    assert_eq!(db.begin_store(), None);
    db.current_data_v2.insert(1, strings(&["a"]));
    db.curr_items = 4;
    assert_eq!(db.begin_store(), Some(0));
    assert_eq!(db.index, 1);
    assert_eq!(db.begin_store(), Some(1));
    assert_eq!(db.mapping_data.get("f.rs"), Some(&vec![0, 1]));
    db.end_store();
    assert!(db.current_data_v2.is_empty());
    assert_eq!(db.curr_items, 0);
    assert_eq!(db.index, 2);
}

#[test]
fn test_indexing_metadata() {
    let mut metadata: StringMap<Vec<String>> = StringMap::new();
    assert_eq!(DB::index_state(&metadata, "f.rs", "c2"), IndexState::NotRecorded);
    metadata.insert("f.rs".to_string(), vec![]);
    assert_eq!(DB::index_state(&metadata, "f.rs", "c2"), IndexState::Current);
    DB::record_indexed_commit(&mut metadata, &"f.rs".to_string(), "c1");
    assert_eq!(DB::index_state(&metadata, "f.rs", "c2"), IndexState::StaleSince("c1".to_string()));
    DB::record_indexed_commit(&mut metadata, &"f.rs".to_string(), "c2");
    assert_eq!(DB::index_state(&metadata, "f.rs", "c2"), IndexState::Current);
    assert_eq!(metadata.get("f.rs"), Some(&strings(&["c1", "c2"])));
}

#[test]
fn test_shard_file_path() {
    assert_eq!(shard_file_path("/home/u/.context_pilot_db/w", 0), "/home/u/.context_pilot_db/w/0.json");
    assert_eq!(shard_file_path("d", 4294967295), "d/4294967295.json");
}

#[test]
fn test_hashes_in_range_and_counts() {
    let mut output = HashMap::new();
    output.insert(1, details(1, &["a"]));
    output.insert(5, details(5, &["b"]));
    output.insert(9, details(9, &["c"]));
    let mut hashes = hashes_in_range(&output, 2, 9);
    hashes.sort();
    assert_eq!(hashes, strings(&["b", "c"]));
    let mut files: StringMap<Vec<String>> = StringMap::new();
    files.insert("b".to_string(), strings(&["x.rs"]));
    files.insert("c".to_string(), strings(&["x.rs", "z.rs"]));
    let counts = count_changed_files(&hashes, &files);
    assert_eq!(counts.get("x.rs"), Some(&2));
    assert_eq!(counts.get("z.rs"), Some(&1));
    assert_eq!(counts.get("q.rs"), None);
}

#[test]
fn test_string_map_basics() {
    let mut m: StringMap<usize> = StringMap::new();
    assert!(m.is_empty());
    m.insert("a".to_string(), 1);
    m.insert("b".to_string(), 2);
    m.insert("a".to_string(), 3);
    assert_eq!(m.len(), 2);
    assert_eq!(m.get("a"), Some(&3));
    let (k, v) = m.entry_at(1);
    assert_eq!((k.as_str(), *v), ("b", 2));
    assert_eq!(m.remove("a"), Some(3));
    assert_eq!(m.remove("a"), None);
    assert_eq!(m.len(), 1);
}
