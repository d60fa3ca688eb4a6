use contextpilot::algo_loc::already_indexed;
use contextpilot::config;
use contextpilot::config_impl::{trim_result, Config};
use contextpilot::contextgpt_structs::{AuthorDetails, AuthorDetailsV2, RequestTypeOptions};
use contextpilot::file_utils::should_be_ignored;
use contextpilot::server::{DBHandler, DBMetadata, Server, ServerAction, State};
use contextpilot::db::DB;
use contextpilot::string_map::StringMap;
use contextpilot::text::{decimal_string, parse_usize};
use std::str::FromStr;

#[test]
fn test_config_default() {
    let c = Config::default();
    assert_eq!(c.file_count_threshold, config::OUTPUT_COUNT_THRESHOLD);
    assert_eq!(c.commit_hashes_threshold, 5);
    assert_eq!(config::MAX_ITEMS_IN_EACH_DB_FILE, 30);
}

#[test]
fn test_trim_result_short_inputs() {
    assert_eq!(trim_result("a,b".to_string(), 5), "a,b,");
    assert_eq!(trim_result("a,b,c".to_string(), 0), "a");
    assert_eq!(trim_result("a,b,c".to_string(), 2), "a,b,c");
    assert_eq!(trim_result("a,b,c".to_string(), 3), "a,b,c,");
    assert_eq!(trim_result("".to_string(), 3), ",");
    let inp = "p,q,r,s".to_string();
    let out = trim_result(inp.clone(), 1);
    assert_eq!(out, "p,q");
    assert!(inp.starts_with(&out));
}

#[test]
fn test_request_type_names() {
    assert_eq!(RequestTypeOptions::from_str("author"), Ok(RequestTypeOptions::Author));
    assert_eq!(RequestTypeOptions::from_str("file"), Ok(RequestTypeOptions::File));
    assert_eq!(RequestTypeOptions::from_str("index"), Ok(RequestTypeOptions::Index));
    assert_eq!(RequestTypeOptions::from_str("query"), Ok(RequestTypeOptions::Query));
    assert_eq!(RequestTypeOptions::from_str("descriptions"), Ok(RequestTypeOptions::Descriptions));
    assert_eq!(RequestTypeOptions::from_str("desc"), Ok(RequestTypeOptions::Descriptions));
    assert_eq!(RequestTypeOptions::from_str("prreviewcomments"), Ok(RequestTypeOptions::PRReviewComments));
    assert_eq!(
        RequestTypeOptions::parse("Author"),
        Err("Could not parse the request type: Author, available field names: [\"Author\", \"File\", \"Index\", \"Query\", \"Descriptions\", \"PRReviewComments\", \"DescWithPRComments\"]".to_string())
    );
}

#[test]
fn test_serialize_from_str() {
    let d = AuthorDetails::serialize_from_str(
        "abc1234 (Jane Q Doe 2024-01-02 10:00:00 +0000 12)".to_string(),
        "abc1234".to_string(),
        "src/main.rs",
        vec!["src/lib.rs".to_string()],
        20,
    );
    // The last word is "12)", which is not a number.
    assert_eq!(d.line_number, 0);
    assert_eq!(d.author_full_name, "");
    let d = AuthorDetails::serialize_from_str(
        "abc1234 Jane Q Doe 2024-01-02 10:00:00 +0000 12".to_string(),
        "abc1234".to_string(),
        "src/main.rs",
        vec!["src/lib.rs".to_string()],
        20,
    );
    assert_eq!(d.line_number, 12);
    assert_eq!(d.author_full_name, "Doe 2024-01-02 10:00:00 +0000 12");
    assert_eq!(d.commit_hash, "abc1234");
    assert_eq!(d.origin_file_path, "src/main.rs");
    assert_eq!(d.contextual_file_paths, vec!["src/lib.rs".to_string()]);
    assert_eq!(d.end_line_number, 20);
    let d = AuthorDetails::serialize_from_str("x 7".to_string(), "h".to_string(), "f", vec![], 1);
    assert_eq!(d.author_full_name, "x 7");
    let d = AuthorDetails::serialize_from_str("   ".to_string(), "h".to_string(), "f", vec![], 1);
    assert_eq!(d.commit_hash, "");
    assert_eq!(d.end_line_number, 0);
}

#[test]
fn test_author_details_v2_default() {
    let d = AuthorDetailsV2::default();
    assert_eq!(d.line_number, 0);
    assert!(d.commit_hashes.is_empty() && d.author_full_name.is_empty() && d.origin_file_path.is_empty());
}

#[test]
fn test_decimal_round_trip() {
    for n in [0u32, 7, 10, 99, 100, 65535, 4294967295] {
        let s = decimal_string(n);
        assert_eq!(s, n.to_string());
        assert_eq!(parse_usize(&s), Some(n as usize));
    }
}

#[test]
fn test_already_indexed() {
    let mut metadata: StringMap<Vec<String>> = StringMap::new();
    metadata.insert("src/a.rs".to_string(), vec!["c1".to_string(), "c2".to_string()]);
    let paths = vec!["/abs/src/a.rs".to_string(), "src/a.rs".to_string()];
    assert!(already_indexed(&metadata, &paths, "c2"));
    assert!(!already_indexed(&metadata, &paths, "c1"));
    assert!(!already_indexed(&metadata, &vec!["other".to_string()], "c2"));
}

#[test]
fn test_should_be_ignored() {
    let entries = vec!["".to_string(), "target*".to_string(), "docs/build".to_string()];
    assert!(should_be_ignored("target/debug/x", &entries));
    assert!(should_be_ignored("docs/build/index.html", &entries));
    // Whole components only: "docs/builder" does not start with "docs/build".
    assert!(!should_be_ignored("docs/builder/x", &entries));
    assert!(!should_be_ignored("src/main.rs", &entries));
}

#[test]
fn test_server_decisions() {
    let mut metadata = DBMetadata::default();
    assert_eq!(metadata.state, State::Stopped);
    assert_eq!(Server::decide(&metadata, ""), ServerAction::Start);
    assert_eq!(Server::decide(&metadata, "/w"), ServerAction::Nothing);
    metadata.workspace_path = "/w".to_string();
    metadata.state = State::Running;
    metadata.curr_progress = 4;
    assert_eq!(Server::decide(&metadata, "/w"), ServerAction::Continue(4));
    metadata.state = State::Starting;
    assert_eq!(Server::decide(&metadata, "/w"), ServerAction::StartAndIndex);
    metadata.state = State::Failed;
    assert_eq!(Server::decide(&metadata, "/w"), ServerAction::Retry);
    let mut server = Server { state: State::default(), state_db_handler: DBHandler { db: DB::default() } };
    let (m, action) = server.handle_server("/w");
    assert_eq!(m.state, State::Stopped);
    assert_eq!(action, ServerAction::Nothing);
    assert_eq!(server.state_db_handler.db.folder_path, "/w");
}
