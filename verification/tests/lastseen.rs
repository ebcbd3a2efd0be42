//! When each flavor last reached us.

use agent_frow::lastseen::{describe, load, record};

#[test]
fn never_is_distinct_from_a_long_time_ago() {
    // These two mean completely different things: one is a pending trust
    // decision or a broken install, the other is an agent nobody has used
    // today. Collapsing them is what makes diagnostics useless.
    assert_eq!(describe(None, 1_000_000), "never");
    assert_eq!(describe(Some(0), 1_000_000_000), "11d ago");
}

#[test]
fn recent_events_read_as_recent() {
    let now = 1_000_000_000;
    assert_eq!(describe(Some(now - 2_000), now), "just now");
    assert_eq!(describe(Some(now - 30_000), now), "30s ago");
    assert_eq!(describe(Some(now - 600_000), now), "10m ago");
    assert_eq!(describe(Some(now - 7_200_000), now), "2h ago");
}

#[test]
fn a_clock_behind_the_event_is_just_now() {
    assert_eq!(describe(Some(9_000), 1_000), "just now");
    assert_eq!(describe(Some(0), 90_999), "90s ago");
    assert_eq!(describe(Some(0), 91_000), "1m ago");
}

#[test]
fn what_is_recorded_is_read_back_beside_what_was_there() {
    let first = record(None, "codex-win", 5);
    let second = record(Some(&first), "codex-wsl", 9);
    let times = load(Some(&second));
    assert_eq!(times.get("codex-win"), Some(5));
    assert_eq!(times.get("codex-wsl"), Some(9));
    let third = record(Some(&second), "codex-win", 11);
    assert_eq!(load(Some(&third)).get("codex-win"), Some(11));
}

#[test]
fn a_file_that_is_not_ours_holds_no_times() {
    assert!(load(None).is_empty());
    assert!(load(Some("{ not json")).is_empty());
    assert!(load(Some("[1, 2]")).is_empty());
    let times = load(Some(r#"{"a": 3, "b": "x", "c": -1, "d": 2.5}"#));
    assert_eq!(times.get("a"), Some(3));
    assert!(times.get("b").is_none() && times.get("c").is_none() && times.get("d").is_none());
}
