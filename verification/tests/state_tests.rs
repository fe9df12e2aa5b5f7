use reflet::outcome::{log_about, log_general};
use reflet::state::{log_entry, push_log, status_shown, worker_missing_message, LogEntry, Statuses, SyncRequest, MAX_CONCURRENT_SYNCS, MAX_LOGS};
use std::collections::VecDeque;

fn entry(n: usize) -> LogEntry {
    LogEntry {
        at: format!("t{n}"),
        level: "info".to_string(),
        pair_id: None,
        action: "info".to_string(),
        path: None,
        message: format!("m{n}"),
    }
}

#[test]
fn log_keeps_the_latest_entries() {
    let mut logs: VecDeque<LogEntry> = VecDeque::new();
    for n in 0..(MAX_LOGS + 5) {
        push_log(&mut logs, entry(n));
        assert!(logs.len() <= MAX_LOGS);
    }
    assert_eq!(logs.len(), MAX_LOGS);
    assert_eq!(logs.front().unwrap().message, "m5");
    assert_eq!(logs.back().unwrap().message, format!("m{}", MAX_LOGS + 4));
    assert_eq!(MAX_LOGS, 300);
    assert_eq!(MAX_CONCURRENT_SYNCS, 2);
}

#[test]
fn log_entries_from_lines() {
    let e = log_entry("now".to_string(), "p1", log_about("warn", "skip", "a/b", "ignoré"));
    assert_eq!(e.at, "now");
    assert_eq!(e.pair_id.as_deref(), Some("p1"));
    assert_eq!(e.level, "warn");
    assert_eq!(e.action, "skip");
    assert_eq!(e.path.as_deref(), Some("a/b"));
    assert_eq!(e.message, "ignoré");
    let g = log_entry("now".to_string(), "p2", log_general("info", "info", "ok"));
    assert!(g.path.is_none());
}

#[test]
fn statuses_read_back_what_was_written() {
    let mut s = Statuses::new();
    assert_eq!(s.get("a"), None);
    s.set("a", "syncing");
    s.set("b", "idle");
    assert_eq!(s.get("a"), Some("syncing".to_string()));
    s.set("a", "error");
    assert_eq!(s.get("a"), Some("error".to_string()));
    assert_eq!(s.get("b"), Some("idle".to_string()));
    s.remove("a");
    assert_eq!(s.get("a"), None);
    assert_eq!(s.get("b"), Some("idle".to_string()));
    s.remove("zz");
    assert_eq!(s.get("b"), Some("idle".to_string()));
}

#[test]
fn status_shown_for_a_pair() {
    assert_eq!(status_shown(false, Some("syncing".to_string())), "disabled");
    assert_eq!(status_shown(true, Some("syncing".to_string())), "syncing");
    assert_eq!(status_shown(true, None), "idle");
    assert_eq!(worker_missing_message(), "worker de synchronisation non démarré");
    assert!(matches!(SyncRequest::Pair("x".to_string()), SyncRequest::Pair(_)));
    assert!(matches!(SyncRequest::All, SyncRequest::All));
}
