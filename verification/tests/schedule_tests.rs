use reflet::compression::CompressionConfig;
use reflet::config::{Settings, SyncPair};
use reflet::scheduler::{
    compute_sleep_at, due_pairs_at, is_schedule_due_at, next_run_sec, pair_interval, parse_hhmm, parse_u32,
    secs_until_schedule, secs_until_schedule_at, watch_event, WatchEvent, MAX_SLEEP, MIN_INTERVAL, MIN_SLEEP,
};

fn pair(id: &str) -> SyncPair {
    SyncPair {
        id: id.to_string(),
        name: id.to_string(),
        source: "/s".to_string(),
        destination: "/d".to_string(),
        enabled: true,
        interval_sec_override: None,
        notify_pc: true,
        notify_app: true,
        ignore_patterns: vec![],
        watch_realtime: false,
        schedule_times: vec![],
        min_file_size: 0,
        max_file_size: 0,
        color: String::new(),
        compression: CompressionConfig::default(),
        backup_mode: false,
        last_run: None,
    }
}

fn times(v: &[&str]) -> Vec<String> {
    v.iter().map(|s| s.to_string()).collect()
}

#[test]
fn parse_numbers_like_str_parse() {
    let p = |s: &str| parse_u32(&s.chars().collect::<Vec<char>>());
    assert_eq!(p("0"), Some(0));
    assert_eq!(p("+17"), Some(17));
    assert_eq!(p("007"), Some(7));
    assert_eq!(p("4294967295"), Some(u32::MAX));
    assert_eq!(p("4294967296"), None);
    assert_eq!(p("99999999999999999999"), None);
    assert_eq!(p(""), None);
    assert_eq!(p("+"), None);
    assert_eq!(p("-1"), None);
    assert_eq!(p("1a"), None);
    assert_eq!(p(" 1"), None);
    for s in ["0", "+17", "007", "4294967296", "", "+", "-1", "1a", " 1", "١٢"] {
        assert_eq!(p(s), s.parse::<u32>().ok(), "{s}");
    }
}

#[test]
fn parse_times_of_day() {
    assert_eq!(parse_hhmm("08:30"), Some((8, 30)));
    assert_eq!(parse_hhmm("8:5"), Some((8, 5)));
    assert_eq!(parse_hhmm("+8:05"), Some((8, 5)));
    assert_eq!(parse_hhmm("23:59"), Some((23, 59)));
    assert_eq!(parse_hhmm("24:00"), None);
    assert_eq!(parse_hhmm("12:60"), None);
    assert_eq!(parse_hhmm("1230"), None);
    assert_eq!(parse_hhmm("12:30:00"), None);
    assert_eq!(parse_hhmm(":30"), None);
    assert_eq!(parse_hhmm("a:b"), None);
    assert_eq!(parse_hhmm(" 8:30"), None);
}

#[test]
fn seconds_until_next_scheduled_time() {
    assert_eq!(secs_until_schedule_at(&times(&["08:30"]), 8, 0, 0), Some(1800));
    assert_eq!(secs_until_schedule_at(&times(&["08:30"]), 8, 30, 10), Some(86390));
    assert_eq!(secs_until_schedule_at(&times(&["bad", "09:00", "08:01"]), 8, 0, 30), Some(30));
    assert_eq!(secs_until_schedule_at(&times(&["bad"]), 8, 0, 0), None);
    assert_eq!(secs_until_schedule_at(&vec![], 8, 0, 0), None);
    let now = secs_until_schedule(&times(&["12:00"])).unwrap();
    assert!(now >= 1 && now <= 86400);
}

#[test]
fn scheduled_time_is_due_for_a_minute_and_a_bit() {
    let t = times(&["08:30"]);
    assert!(is_schedule_due_at(&t, 8, 30, 0));
    assert!(is_schedule_due_at(&t, 8, 31, 59));
    assert!(!is_schedule_due_at(&t, 8, 32, 0));
    assert!(!is_schedule_due_at(&t, 8, 29, 59));
    assert!(is_schedule_due_at(&times(&["00:00"]), 0, 0, 0));
    assert!(!is_schedule_due_at(&times(&["23:59"]), 0, 0, 0));
}

#[test]
fn pair_intervals() {
    let mut s = Settings::default();
    let mut p = pair("a");
    assert_eq!(pair_interval(&p, &s), 900);
    p.interval_sec_override = Some(60);
    assert_eq!(pair_interval(&p, &s), 60);
    p.interval_sec_override = Some(3);
    assert_eq!(pair_interval(&p, &s), 900);
    s.interval_sec = 1;
    assert_eq!(pair_interval(&p, &s), MIN_INTERVAL);
}

#[test]
fn scheduler_sleep() {
    let s = Settings::default();
    assert_eq!(compute_sleep_at(&vec![], &s, &vec![], 8, 0, 0), MAX_SLEEP);
    let a = pair("a");
    assert_eq!(compute_sleep_at(&vec![a.duplicate()], &s, &vec![Some(100)], 8, 0, 0), 800);
    assert_eq!(compute_sleep_at(&vec![a.duplicate()], &s, &vec![Some(899)], 8, 0, 0), MIN_SLEEP);
    assert_eq!(compute_sleep_at(&vec![a.duplicate()], &s, &vec![None], 8, 0, 0), 900);
    let mut off = pair("b");
    off.enabled = false;
    assert_eq!(compute_sleep_at(&vec![off], &s, &vec![Some(899)], 8, 0, 0), MAX_SLEEP);
    let mut sched = pair("c");
    sched.schedule_times = times(&["08:10"]);
    assert_eq!(compute_sleep_at(&vec![sched.duplicate(), a.duplicate()], &s, &vec![None, Some(0)], 8, 0, 0), 600);
    assert_eq!(compute_sleep_at(&vec![sched], &s, &vec![None], 8, 9, 59), MIN_SLEEP);
}

#[test]
fn due_pairs() {
    let s = Settings::default();
    let a = pair("a");
    let mut off = pair("off");
    off.enabled = false;
    let mut sched = pair("s");
    sched.schedule_times = times(&["08:00"]);
    let pairs = vec![a.duplicate(), off, sched.duplicate(), a.duplicate()];
    let (due, track) = due_pairs_at(&pairs, &s, &vec![Some(900), Some(10_000), Some(60), None], 8, 1, 0);
    assert_eq!(due, vec![0, 2]);
    assert_eq!(track, vec![3]);
    let (due, track) = due_pairs_at(&vec![sched.duplicate()], &s, &vec![Some(59)], 8, 0, 0);
    assert!(due.is_empty() && track.is_empty());
    let (due, track) = due_pairs_at(&vec![sched], &s, &vec![None], 9, 0, 0);
    assert!(due.is_empty() && track.is_empty());
}

#[test]
fn next_run_shown() {
    let s = Settings::default();
    let a = pair("a");
    assert_eq!(next_run_sec(&a, &s, true, Some(100)), Some(800));
    assert_eq!(next_run_sec(&a, &s, true, Some(1000)), Some(0));
    assert_eq!(next_run_sec(&a, &s, true, None), Some(900));
    assert_eq!(next_run_sec(&a, &s, false, Some(1)), None);
}

#[test]
fn watcher_debounce() {
    assert!(matches!(watch_event(None, false), WatchEvent::Trigger));
    assert!(matches!(watch_event(None, true), WatchEvent::Busy));
    assert!(matches!(watch_event(Some((3, 0)), false), WatchEvent::Debounced));
    assert!(matches!(watch_event(Some((3, 1)), false), WatchEvent::Trigger));
    assert!(matches!(watch_event(Some((10, 0)), true), WatchEvent::Busy));
    assert!(matches!(watch_event(Some((0, 999)), true), WatchEvent::Debounced));
}
