use orca_bot::history::{user_rate_is_ok, Log, LogEntry, NANOS_PER_SEC};

fn secs(s: i128) -> i128 {
    s * NANOS_PER_SEC
}

fn entry(t: i128, user: &str, url: &str) -> LogEntry {
    LogEntry { time: t, user: user.to_string(), url: url.to_string() }
}

fn collect_urls(log: &Log, since: i128, user: &str) -> Vec<String> {
    let mut it = log.iter_from_user(since, user);
    let mut out = Vec::new();
    while let Some(e) = it.next() {
        out.push(e.url.clone());
    }
    out
}

#[test]
fn appended_entry_is_seen_only_by_earlier_queries() {
    let mut log = Log::new(vec![entry(secs(1), "alice", "u1")]);
    let t = secs(100);
    log.log(t, "alice", "u2");
    assert_eq!(collect_urls(&log, t - 1, "alice"), vec!["u2".to_string()]);
    assert_eq!(collect_urls(&log, 0, "alice"), vec!["u1".to_string(), "u2".to_string()]);
    assert!(collect_urls(&log, t, "alice").is_empty());
    assert!(collect_urls(&log, t + 1, "alice").is_empty());
    assert!(collect_urls(&log, 0, "bob").is_empty());
}

#[test]
fn query_keeps_log_order_and_filters_user() {
    let log = Log::new(vec![
        entry(secs(10), "a", "1"),
        entry(secs(20), "b", "2"),
        entry(secs(30), "a", "3"),
        entry(secs(40), "a", "4"),
    ]);
    assert_eq!(collect_urls(&log, secs(15), "a"), vec!["3".to_string(), "4".to_string()]);
    assert_eq!(collect_urls(&log, secs(10), "b"), vec!["2".to_string()]);
    assert_eq!(log.entries().len(), 4);
}

#[test]
fn hour_window_excludes_older_entry() {
    let now = secs(1_000_000);
    let log = Log::new(vec![entry(now - secs(3601), "u", "old"), entry(now - secs(10), "u", "new")]);
    assert_eq!(collect_urls(&log, now - secs(3600), "u"), vec!["new".to_string()]);
}

#[test]
fn rate_limit_scenario() {
    let mut log = Log::new(Vec::new());
    let base = secs(1_700_000_000);
    assert!(user_rate_is_ok(&log, "u", base, 30, 2));
    log.log(base, "u", "r0");
    assert!(!user_rate_is_ok(&log, "u", base + secs(5), 30, 2));
    assert!(user_rate_is_ok(&log, "u", base + secs(40), 30, 2));
    log.log(base + secs(40), "u", "r40");
    assert!(!user_rate_is_ok(&log, "u", base + secs(100), 30, 2));
    // other requesters are not affected
    assert!(user_rate_is_ok(&log, "v", base + secs(100), 30, 2));
    // after the hour the quota frees up again
    assert!(user_rate_is_ok(&log, "u", base + secs(3641), 30, 2));
}

#[test]
fn zero_quota_denies_everything() {
    let log = Log::new(Vec::new());
    assert!(!user_rate_is_ok(&log, "u", 0, 0, 0));
}

#[test]
fn reload_replaces_entries() {
    let mut log = Log::new(vec![entry(1, "a", "x")]);
    log.reload(vec![entry(2, "b", "y"), entry(3, "b", "z")]);
    assert!(collect_urls(&log, 0, "a").is_empty());
    assert_eq!(collect_urls(&log, 0, "b"), vec!["y".to_string(), "z".to_string()]);
}
