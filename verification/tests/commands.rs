use bms_score_manager::commands::{ownership_summary, search_window, SearchParams};
use bms_score_manager::db::Database;
use std::path::PathBuf;

fn params(q: &str, limit: Option<i64>, offset: Option<i64>) -> SearchParams {
    SearchParams { query: q.to_string(), limit, offset }
}

#[test]
fn blank_query_matches_everything() {
    assert_eq!(search_window(params("   ", None, None)), ("*".to_string(), 100, 0));
    assert_eq!(search_window(params("", None, None)).0, "*");
}

#[test]
fn query_is_kept_as_given() {
    assert_eq!(search_window(params(" foo ", Some(20), Some(40))), (" foo ".to_string(), 20, 40));
}

#[test]
fn limit_and_offset_are_clamped() {
    assert_eq!(search_window(params("x", Some(0), Some(-5))), ("x".to_string(), 1, 0));
    assert_eq!(search_window(params("x", Some(-3), Some(i64::MIN))), ("x".to_string(), 1, 0));
    assert_eq!(search_window(params("x", Some(i64::MAX), None)).1, i64::MAX);
}

#[test]
fn ownership_counts_missing_entries() {
    let s = ownership_summary(7, 120, 45);
    assert_eq!((s.table_id, s.total_entries, s.owned_entries, s.missing_entries), (7, 120, 45, 75));
    let none = ownership_summary(1, 0, 0);
    assert_eq!(none.missing_entries, 0);
}

#[test]
fn database_keeps_its_path() {
    let db = Database::new(PathBuf::from("/tmp/x/bms.sqlite3"));
    assert_eq!(db.path(), &PathBuf::from("/tmp/x/bms.sqlite3"));
}
