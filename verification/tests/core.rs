use honeydash::aggregate::{ip_aggregate, ip_auth_attempts, list_recent, recent_auth_attempts};
use honeydash::error::{Severity, StoreError};
use honeydash::model::{classify, classify_raw_form, outcome_code, AuthAttempt, Command, Download, Outcome, Session};
use honeydash::timefmt::format_relative;
use honeydash::views::{auth_views, ip_aggregate_views};

// 2024-01-01T10:00:00 UTC as epoch seconds.
const T10: u64 = 1704103200;

fn session(id: &str, start: u64, ip: &str) -> Session {
    Session {
        id: id.to_string(),
        starttime: start,
        endtime: None,
        sensor: 1,
        ip: ip.to_string(),
        termsize: None,
        client: None,
    }
}

fn attempt(id: &str, session: &str, success: Option<i8>, ts: u64) -> AuthAttempt {
    AuthAttempt {
        id: id.to_string(),
        session: session.to_string(),
        success,
        username: Some("root".to_string()),
        password: Some("123456".to_string()),
        client: None,
        timestamp: ts,
    }
}

#[test]
fn classify_is_total_over_representatives() {
    assert_eq!(classify(None), Outcome::Unknown);
    assert_eq!(classify(Some(0)), Outcome::Failure);
    assert_eq!(classify(Some(1)), Outcome::Success);
    assert_eq!(classify(Some(7)), Outcome::Success);
    assert_eq!(classify(Some(-3)), Outcome::Success);
}

#[test]
fn classify_idempotent_on_raw_forms() {
    for raw in [None, Some(0), Some(1), Some(7), Some(-3)] {
        assert_eq!(classify(classify_raw_form(raw)), classify(raw));
    }
}

#[test]
fn outcome_codes_are_bounded() {
    assert_eq!(outcome_code(Outcome::Failure), 0);
    assert_eq!(outcome_code(Outcome::Success), 1);
    assert_eq!(outcome_code(Outcome::Unknown), 2);
}

#[test]
fn format_clamps_future_to_just_now() {
    assert_eq!(format_relative(100, 100, 1), "just now");
    assert_eq!(format_relative(200, 100, 1), "just now");
}

#[test]
fn format_single_units() {
    let now = 1_000_000u64;
    assert_eq!(format_relative(now - 1, now, 1), "1 second ago");
    assert_eq!(format_relative(now - 59, now, 1), "59 seconds ago");
    assert_eq!(format_relative(now - 60, now, 1), "1 minute ago");
    assert_eq!(format_relative(now - 180, now, 1), "3 minutes ago");
    assert_eq!(format_relative(now - 3600, now, 1), "1 hour ago");
    assert_eq!(format_relative(now - 86400, now, 1), "1 day ago");
    assert_eq!(format_relative(now - 604800, now, 1), "1 week ago");
}

#[test]
fn format_two_units() {
    let now = 10_000_000u64;
    assert_eq!(format_relative(now - (2 * 3600 + 14 * 60), now, 2), "2 hours, 14 minutes ago");
    // a zero minute remainder skips to the next nonzero unit
    assert_eq!(format_relative(now - (2 * 3600 + 30), now, 2), "2 hours, 30 seconds ago");
    // an exact multiple shows a single unit even with budget left
    assert_eq!(format_relative(now - 2 * 3600, now, 2), "2 hours ago");
}

#[test]
fn format_handles_extreme_durations() {
    // the widest possible elapsed duration still renders exactly
    assert_eq!(format_relative(0, u64::MAX, 1), "584942417355 years ago");
    assert_eq!(format_relative(0, u64::MAX, 2), "584942417355 years, 3 weeks ago");
    assert_eq!(format_relative(0, 0, 1), "just now");
}

#[test]
fn format_monotonic_for_fixed_now() {
    // an older timestamp formats to a phrase implying at least as much time
    let now = 1_000_000u64;
    assert_eq!(format_relative(now - 7200, now, 1), "2 hours ago");
    assert_eq!(format_relative(now - 60, now, 1), "1 minute ago");
}

#[test]
fn rollup_end_to_end_single_session() {
    let sessions = vec![session("s1", T10, "1.2.3.4")];
    let auths: Vec<AuthAttempt> = Vec::new();
    let commands: Vec<Command> = Vec::new();
    let downloads: Vec<Download> = Vec::new();
    let rows = ip_aggregate(&sessions, &auths, &commands, &downloads, 50);
    assert_eq!(rows.len(), 1);
    assert_eq!(rows[0].ip, "1.2.3.4");
    assert_eq!(rows[0].sessions, 1);
    assert_eq!(rows[0].auth_attempts, 0);
    assert_eq!(rows[0].commands, 0);
    assert_eq!(rows[0].downloads, 0);
    assert_eq!(rows[0].first_seen, Some(T10));
    assert_eq!(rows[0].last_seen, Some(T10));
}

#[test]
fn rollup_zero_fills_left_joins() {
    // one address with auth activity, one without: the quiet one still
    // appears, with an exact zero
    let sessions = vec![
        session("s1", T10, "1.2.3.4"),
        session("s2", T10 + 100, "5.6.7.8"),
    ];
    let auths = vec![attempt("a1", "s1", Some(1), T10 + 5)];
    let commands: Vec<Command> = Vec::new();
    let downloads: Vec<Download> = Vec::new();
    let rows = ip_aggregate(&sessions, &auths, &commands, &downloads, 10);
    assert_eq!(rows.len(), 2);
    let quiet = rows.iter().find(|r| r.ip == "5.6.7.8").unwrap();
    assert_eq!(quiet.auth_attempts, 0);
    assert_eq!(quiet.sessions, 1);
    let busy = rows.iter().find(|r| r.ip == "1.2.3.4").unwrap();
    assert_eq!(busy.auth_attempts, 1);
}

#[test]
fn rollup_orders_by_last_seen_and_truncates() {
    let sessions = vec![
        session("s1", 1000, "a"),
        session("s2", 3000, "b"),
        session("s3", 2000, "c"),
        session("s4", 5000, "a"),
    ];
    let auths: Vec<AuthAttempt> = Vec::new();
    let commands: Vec<Command> = Vec::new();
    let downloads: Vec<Download> = Vec::new();
    let rows = ip_aggregate(&sessions, &auths, &commands, &downloads, 2);
    assert_eq!(rows.len(), 2);
    assert_eq!(rows[0].ip, "a");
    assert_eq!(rows[0].last_seen, Some(5000));
    assert_eq!(rows[0].first_seen, Some(1000));
    assert_eq!(rows[0].sessions, 2);
    assert_eq!(rows[1].ip, "b");
    // limit zero yields no rows, never an error
    let none = ip_aggregate(&sessions, &auths, &commands, &downloads, 0);
    assert_eq!(none.len(), 0);
}

#[test]
fn rollup_counts_all_joined_events() {
    let sessions = vec![session("s1", 1000, "a"), session("s2", 2000, "a")];
    let auths = vec![
        attempt("a1", "s1", Some(1), 1001),
        attempt("a2", "s2", Some(0), 2001),
        attempt("a3", "nosuch", Some(1), 5),
    ];
    let commands = vec![Command { id: 1, session: "s1".to_string() }];
    let downloads = vec![
        Download { id: 1, session: "s2".to_string() },
        Download { id: 2, session: "s2".to_string() },
    ];
    let rows = ip_aggregate(&sessions, &auths, &commands, &downloads, 5);
    assert_eq!(rows.len(), 1);
    assert_eq!(rows[0].sessions, 2);
    assert_eq!(rows[0].auth_attempts, 2);
    assert_eq!(rows[0].commands, 1);
    assert_eq!(rows[0].downloads, 2);
}

#[test]
fn trend_buckets_by_minute() {
    // two successful attempts at 10:00:15 and 10:00:45 land in one bucket
    let sessions = vec![
        session("s1", T10 + 15, "1.2.3.4"),
        session("s2", T10 + 45, "1.2.3.4"),
    ];
    let auths = vec![
        attempt("a1", "s1", Some(1), T10 + 16),
        attempt("a2", "s2", Some(1), T10 + 46),
    ];
    let now = T10 + 3600; // 11:00:00
    let rows = recent_auth_attempts(&sessions, &auths, now, 6);
    assert_eq!(rows.len(), 1);
    assert_eq!(rows[0].time, Some(T10));
    assert_eq!(rows[0].success, 2);
    assert_eq!(rows[0].failure, 0);
}

#[test]
fn trend_excludes_unknown_and_old_sessions() {
    let now = T10 + 3600;
    let sessions = vec![
        session("s1", T10, "a"),
        session("s2", T10 + 60, "a"),
        session("s3", now - 7 * 3600, "a"), // outside a 6-hour window
    ];
    let auths = vec![
        attempt("a1", "s1", Some(1), T10),
        attempt("a2", "s1", Some(0), T10),
        attempt("a3", "s1", None, T10), // unknown outcome counts nowhere
        attempt("a4", "s2", Some(0), T10 + 61),
        attempt("a5", "s3", Some(1), now - 7 * 3600),
    ];
    let rows = recent_auth_attempts(&sessions, &auths, now, 6);
    assert_eq!(rows.len(), 2);
    let b1 = rows.iter().find(|r| r.time == Some(T10)).unwrap();
    assert_eq!(b1.success, 1);
    assert_eq!(b1.failure, 1);
    let b2 = rows.iter().find(|r| r.time == Some(T10 + 60)).unwrap();
    assert_eq!(b2.success, 0);
    assert_eq!(b2.failure, 1);
}

#[test]
fn detail_empty_for_unknown_ip() {
    let sessions = vec![session("s1", T10, "1.2.3.4")];
    let auths = vec![attempt("a1", "s1", Some(1), T10)];
    let rows = ip_auth_attempts(&sessions, &auths, &"9.9.9.9".to_string());
    assert_eq!(rows.len(), 0);
}

#[test]
fn detail_keeps_matching_attempts_in_order() {
    let sessions = vec![session("s1", T10, "1.2.3.4"), session("s2", T10, "5.6.7.8")];
    let auths = vec![
        attempt("a1", "s1", Some(1), T10 + 1),
        attempt("a2", "s2", Some(0), T10 + 2),
        attempt("a3", "s1", None, T10 + 3),
    ];
    let rows = ip_auth_attempts(&sessions, &auths, &"1.2.3.4".to_string());
    assert_eq!(rows.len(), 2);
    assert_eq!(rows[0].id, "a1");
    assert_eq!(rows[1].id, "a3");
}

#[test]
fn list_recent_returns_every_session() {
    let sessions = vec![session("s1", 10, "a"), session("s2", 20, "b")];
    let listed = list_recent(&sessions);
    assert_eq!(listed.len(), 2);
    assert_eq!(listed[0].id, "s1");
    assert_eq!(listed[1].id, "s2");
    assert_eq!(listed[1].starttime, 20);
}

#[test]
fn rollup_views_render_relative_times() {
    let sessions = vec![session("s1", T10, "1.2.3.4")];
    let auths: Vec<AuthAttempt> = Vec::new();
    let commands: Vec<Command> = Vec::new();
    let downloads: Vec<Download> = Vec::new();
    let rows = ip_aggregate(&sessions, &auths, &commands, &downloads, 50);
    let now = T10 + 180;
    let views = ip_aggregate_views(&rows, now);
    assert_eq!(views.len(), 1);
    assert_eq!(views[0].ip, "1.2.3.4");
    assert_eq!(views[0].first_seen, "3 minutes ago");
    assert_eq!(views[0].last_seen, "3 minutes ago");
    assert_eq!(views[0].sessions, 1);
    assert_eq!(views[0].auth_attempts, 0);
}

#[test]
fn auth_views_classify_and_render() {
    let auths = vec![
        attempt("a1", "s1", Some(1), T10),
        attempt("a2", "s1", Some(0), T10),
        attempt("a3", "s1", None, T10),
    ];
    let now = T10 + 2 * 3600 + 14 * 60;
    let views = auth_views(&auths, now);
    assert_eq!(views.len(), 3);
    assert_eq!(views[0].success, 1);
    assert_eq!(views[1].success, 0);
    assert_eq!(views[2].success, 2);
    assert_eq!(views[0].id, "a1");
    assert_eq!(views[0].username, Some("root".to_string()));
    assert_eq!(views[0].time, "2 hours, 14 minutes ago");
}

#[test]
fn store_errors_are_backend_faults() {
    assert_eq!(StoreError::Connectivity.severity(), Severity::Backend);
    assert_eq!(StoreError::Query.severity(), Severity::Backend);
    assert_eq!(StoreError::Mapping.severity(), Severity::Backend);
}
