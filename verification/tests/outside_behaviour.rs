use chrono::TimeZone;
use git_analyser::history::{MAX_TIMESTAMP, MIN_TIMESTAMP};
use std::path::Path;

#[test]
fn chrono_has_dates_exactly_from_min_to_max_timestamp() {
    assert!(chrono::Utc.timestamp_opt(MAX_TIMESTAMP, 0).single().is_some());
    assert!(chrono::Utc.timestamp_opt(MAX_TIMESTAMP + 1, 0).single().is_none());
    assert!(chrono::Utc.timestamp_opt(MIN_TIMESTAMP, 0).single().is_some());
    assert!(chrono::Utc.timestamp_opt(MIN_TIMESTAMP - 1, 0).single().is_none());
    assert!(chrono::Utc.timestamp_opt(i64::MAX, 0).single().is_none());
    assert!(chrono::Utc.timestamp_opt(i64::MIN, 0).single().is_none());
}

#[test]
fn path_parent_is_a_strictly_shorter_prefix() {
    for p in ["a/b/c.rs", "a", "/", "", "./x", "a//b", "/abs/x", "a/b/", ".", "..", "../x"] {
        if let Some(q) = Path::new(p).parent() {
            let q = q.to_str().unwrap();
            assert!(q.len() < p.len(), "{p}");
            assert!(p.starts_with(q), "{p}");
        }
    }
    assert!(Path::new("").parent().is_none());
}
