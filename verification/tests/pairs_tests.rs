use reflet::compression::CompressionConfig;
use reflet::paths::ResolvedFolders;
use reflet::config::{default_true, Config, LastRun, Settings, SyncPair};
use reflet::pairs::{
    add_pair, add_pair_with, apply_pair_update, first_clash_name, update_pair_with, archive_conflict, conflict_message, delete_pair, disable_pair, find_pair,
    reconcile_watcher, record_last_run, reorder_pairs, set_pair_enabled, set_pair_watch_realtime,
    set_scheduler_running, update_pair, update_settings, validate_size_filter, NewPair, WatchAction, WatchChange,
};

fn pair(id: &str, name: &str, source: &str, dest: &str) -> SyncPair {
    SyncPair {
        id: id.to_string(),
        name: name.to_string(),
        source: source.to_string(),
        destination: dest.to_string(),
        enabled: true,
        interval_sec_override: None,
        notify_pc: true,
        notify_app: true,
        ignore_patterns: vec![],
        watch_realtime: false,
        schedule_times: vec![],
        min_file_size: 0,
        max_file_size: 0,
        color: String::new(),
        compression: CompressionConfig { method: "off".to_string(), level: 0, password: None, archive_name: String::new() },
        backup_mode: false,
        last_run: None,
    }
}

fn new_pair(name: &str, source: &str, dest: &str) -> NewPair {
    NewPair {
        name: name.to_string(),
        source: source.to_string(),
        destination: dest.to_string(),
        enabled: true,
        interval_sec_override: Some(60),
        notify_pc: true,
        notify_app: false,
        ignore_patterns: vec!["*.log".to_string()],
        watch_realtime: true,
        schedule_times: vec![],
        min_file_size: 0,
        max_file_size: 0,
        color: "#fff".to_string(),
        compression: CompressionConfig::default(),
        backup_mode: false,
    }
}

fn res(a: &str, b: &str) -> ResolvedFolders {
    ResolvedFolders { source: a.to_string(), destination: b.to_string() }
}

fn config(pairs: Vec<SyncPair>) -> Config {
    Config { settings: Settings::default(), pairs }
}

fn ids(c: &Config) -> Vec<String> {
    c.pairs.iter().map(|p| p.id.clone()).collect()
}

#[test]
fn size_filter_validation() {
    assert!(validate_size_filter(5, 10).is_ok());
    assert!(validate_size_filter(50, 0).is_ok());
    assert_eq!(
        validate_size_filter(11, 10).err(),
        Some("Taille minimale supérieure à la taille maximale.".to_string())
    );
    assert!(default_true());
}

#[test]
fn add_pair_refusals() {
    let mut c = config(vec![]);
    assert_eq!(add_pair(&mut c, new_pair("x", " ", "/d"), &res(" ", "/d")).err(), Some("Source et destination requises".to_string()));
    assert_eq!(
        add_pair(&mut c, new_pair("x", "/reflet_m/a", "/reflet_m/a/b"), &res("/reflet_m/a", "/reflet_m/a/b")).err(),
        Some("Source et destination imbriquées (interdit)".to_string())
    );
    let mut bad = new_pair("x", "/reflet_m/s", "/reflet_m/d");
    bad.min_file_size = 9;
    bad.max_file_size = 1;
    assert_eq!(add_pair(&mut c, bad, &res("/reflet_m/s", "/reflet_m/d")).err(), Some("Taille minimale supérieure à la taille maximale.".to_string()));
    assert!(c.pairs.is_empty());
}

#[test]
fn add_pair_appends_with_fresh_id() {
    let mut c = config(vec![pair("a", "A", "/s1", "/d1")]);
    let (id, action) = add_pair(&mut c, new_pair("  ", "/reflet_m/s", "/reflet_m/d"), &res("/reflet_m/s", "/reflet_m/d")).ok().unwrap();
    assert_eq!(c.pairs.len(), 2);
    let p = &c.pairs[1];
    assert_eq!(p.id, id);
    assert_ne!(id, "a");
    assert_eq!(p.name, "/reflet_m/s");
    assert_eq!(p.interval_sec_override, Some(60));
    assert_eq!(p.ignore_patterns, vec!["*.log".to_string()]);
    assert!(p.last_run.is_none());
    match action {
        WatchAction::Start { id: i, source } => {
            assert_eq!(i, id);
            assert_eq!(source, "/reflet_m/s");
        }
        _ => panic!("expected a watcher start"),
    }
}

#[test]
fn add_pair_refuses_shared_archive() {
    let mut other = pair("a", "Photos", "/s1", "/reflet_m/d");
    other.compression.method = "deflate".to_string();
    other.compression.archive_name = "arch".to_string();
    let mut c = config(vec![other]);
    let mut n = new_pair("n", "/reflet_m/s2", "/reflet_m/d");
    n.compression = CompressionConfig { method: "zstd".to_string(), level: 3, password: None, archive_name: "arch".to_string() };
    assert_eq!(
        add_pair(&mut c, n, &res("/reflet_m/s2", "/reflet_m/d")).err(),
        Some("Conflit d'archive avec « Photos » (même fichier .zip de destination). Change le nom de l'archive ou la destination.".to_string())
    );
    assert_eq!(c.pairs.len(), 1);
}

#[test]
fn archive_conflict_ignores_self_and_other_modes() {
    let mut a = pair("a", "A", "/s", "/d");
    a.compression.method = "deflate".to_string();
    let mut b = pair("b", "A", "/s", "/d");
    b.compression.method = "deflate".to_string();
    let mut c = pair("c", "A", "/s", "/d");
    c.compression.method = "deflate".to_string();
    c.backup_mode = true;
    let pairs = vec![a.duplicate(), c];
    assert_eq!(archive_conflict(&pairs, "a", &a), None);
    assert_eq!(archive_conflict(&pairs, "b", &b), Some("A".to_string()));
    let off = pair("z", "Z", "/s", "/d");
    assert_eq!(archive_conflict(&pairs, "z", &off), None);
    assert_eq!(conflict_message("X"), "Conflit d'archive avec « X » (même fichier .zip de destination). Change le nom de l'archive ou la destination.");
}

#[test]
fn enabling_and_watching_pairs() {
    let mut c = config(vec![pair("a", "A", "/s1", "/d1"), pair("b", "B", "/s2", "/d2")]);
    assert_eq!(set_pair_enabled(&mut c, "zz", false).err(), Some("Paire introuvable".to_string()));
    match set_pair_enabled(&mut c, "b", false).ok().unwrap() {
        WatchAction::Stop { id } => assert_eq!(id, "b"),
        _ => panic!("expected a stop"),
    }
    assert!(!c.pairs[1].enabled);
    assert!(c.pairs[0].enabled);
    match set_pair_watch_realtime(&mut c, "a", true).ok().unwrap() {
        WatchAction::Start { id, source } => assert_eq!((id.as_str(), source.as_str()), ("a", "/s1")),
        _ => panic!("expected a start"),
    }
    assert!(c.pairs[0].watch_realtime);
    assert_eq!(set_pair_watch_realtime(&mut c, "zz", true).err(), Some("Paire introuvable".to_string()));
    disable_pair(&mut c, "a");
    assert!(!c.pairs[0].enabled);
    assert!(matches!(reconcile_watcher("x", true, true, None), WatchAction::Keep));
}

#[test]
fn deleting_removes_every_pair_with_the_id() {
    let mut c = config(vec![pair("a", "A", "/s", "/d"), pair("b", "B", "/s", "/d"), pair("a", "A2", "/s", "/d")]);
    match delete_pair(&mut c, "a") {
        WatchAction::Stop { id } => assert_eq!(id, "a"),
        _ => panic!("expected a stop"),
    }
    assert_eq!(ids(&c), vec!["b".to_string()]);
    delete_pair(&mut c, "missing");
    assert_eq!(ids(&c), vec!["b".to_string()]);
}

#[test]
fn reordering_follows_the_given_ids() {
    let mut c = config(vec![pair("a", "A", "/s", "/d"), pair("b", "B", "/s", "/d"), pair("c", "C", "/s", "/d")]);
    reorder_pairs(&mut c, &vec!["c".to_string(), "x".to_string(), "a".to_string()]);
    assert_eq!(ids(&c), vec!["c".to_string(), "a".to_string(), "b".to_string()]);
    reorder_pairs(&mut c, &vec!["b".to_string(), "b".to_string()]);
    assert_eq!(ids(&c), vec!["b".to_string(), "b".to_string(), "c".to_string(), "a".to_string()]);
}

#[test]
fn updating_a_pair() {
    let mut stored = pair("a", "A", "/s", "/d");
    stored.last_run = Some(LastRun {
        at: "t".to_string(),
        status: "ok".to_string(),
        copied: 1,
        updated: 2,
        deleted: 3,
        errors: 0,
    });
    stored.watch_realtime = true;
    let mut c = config(vec![stored]);
    let mut changed = pair("a", "Renamed", "/reflet_m/s9", "/reflet_m/d9");
    changed.watch_realtime = true;
    match update_pair(&mut c, changed, &res("/reflet_m/s9", "/reflet_m/d9")).ok().unwrap() {
        WatchChange::Restart(src) => assert_eq!(src, "/reflet_m/s9"),
        _ => panic!("expected a restart"),
    }
    assert_eq!(c.pairs[0].name, "Renamed");
    assert_eq!(c.pairs[0].last_run.as_ref().unwrap().deleted, 3);
    let unknown = pair("zz", "Z", "/reflet_m/s8", "/reflet_m/d8");
    assert_eq!(update_pair(&mut c, unknown, &res("/reflet_m/s8", "/reflet_m/d8")).err(), Some("Paire introuvable".to_string()));
    let nested = pair("a", "N", "/reflet_m/x", "/reflet_m/x/y");
    assert_eq!(update_pair(&mut c, nested, &res("/reflet_m/x", "/reflet_m/x/y")).err(), Some("Source et destination imbriquées (interdit)".to_string()));
    let mut off = pair("a", "Off", "/reflet_m/s9", "/reflet_m/d9");
    off.enabled = false;
    assert!(matches!(apply_pair_update(&mut c, off).ok().unwrap(), WatchChange::Stop));
    let on = pair("a", "On", "/reflet_m/s9", "/reflet_m/d9");
    assert!(matches!(apply_pair_update(&mut c, on).ok().unwrap(), WatchChange::Keep));
}

#[test]
fn last_run_and_settings() {
    let mut c = config(vec![pair("a", "A", "/s", "/d")]);
    let lr = LastRun { at: "t".to_string(), status: "error".to_string(), copied: 0, updated: 0, deleted: 0, errors: 4 };
    record_last_run(&mut c, "a", lr);
    assert_eq!(c.pairs[0].last_run.as_ref().unwrap().errors, 4);
    assert_eq!(find_pair(&c.pairs, "a"), Some(0));
    assert_eq!(find_pair(&c.pairs, "q"), None);
    set_scheduler_running(&mut c, false);
    assert!(!c.settings.scheduler_running);
    let mut s = Settings::default();
    s.interval_sec = 60;
    update_settings(&mut c, s);
    assert_eq!(c.settings.interval_sec, 60);
    assert_eq!(c.pairs.len(), 1);
}

#[test]
fn default_configuration() {
    let c = Config::default();
    assert!(c.pairs.is_empty());
    assert_eq!(c.settings.interval_sec, 900);
    assert_eq!(c.settings.delete_behavior, "trash");
    assert_eq!(c.settings.ignore_patterns.len(), 5);
    assert_eq!(c.settings.mtime_tolerance_sec, 2);
    assert_eq!(c.settings.delete_safety_threshold_pct, 50);
    assert_eq!(c.settings.verify_by_content, "off");
    assert!(c.settings.scheduler_running);
    let cc = CompressionConfig::default();
    assert_eq!(cc.method, "off");
}

#[test]
fn add_pair_with_follows_the_answers() {
    let mut c = config(vec![pair("a", "A", "/s1", "/d1")]);
    assert_eq!(
        add_pair_with(&mut c, new_pair("x", "/s", "/d"), true, "id1".to_string(), &vec![false]).err(),
        Some("Source et destination imbriquées (interdit)".to_string())
    );
    let mut bad = new_pair("x", "/s", "/d");
    bad.min_file_size = 9;
    bad.max_file_size = 1;
    assert_eq!(
        add_pair_with(&mut c, bad, false, "id1".to_string(), &vec![false]).err(),
        Some("Taille minimale supérieure à la taille maximale.".to_string())
    );
    assert_eq!(c.pairs.len(), 1);
    let (id, action) = add_pair_with(&mut c, new_pair("", "/s", "/d"), false, "id1".to_string(), &vec![false]).unwrap();
    assert_eq!(id, "id1");
    assert_eq!(c.pairs.len(), 2);
    assert_eq!(c.pairs[1].id, "id1");
    assert_eq!(c.pairs[1].name, "/s");
    assert!(matches!(action, WatchAction::Start { .. }));
}

#[test]
fn add_pair_with_reports_archive_clash() {
    let mut a = pair("a", "Arch", "/s1", "/d");
    a.compression.method = "deflate".to_string();
    let mut c = config(vec![a]);
    let mut n = new_pair("Arch", "/s2", "/d");
    n.compression.method = "deflate".to_string();
    assert_eq!(
        add_pair_with(&mut c, n, false, "id2".to_string(), &vec![true]).err(),
        Some("Conflit d'archive avec « Arch » (même fichier .zip de destination). Change le nom de l'archive ou la destination.".to_string())
    );
    assert_eq!(c.pairs.len(), 1);
}

#[test]
fn update_pair_with_follows_the_answers() {
    let mut c = config(vec![pair("a", "A", "/s1", "/d1")]);
    assert_eq!(
        update_pair_with(&mut c, pair("a", "A2", "/s1", "/d1"), true, &vec![false]).err(),
        Some("Source et destination imbriquées (interdit)".to_string())
    );
    assert_eq!(
        update_pair_with(&mut c, pair("zz", "Z", "/s", "/d"), false, &vec![false]).err(),
        Some("Paire introuvable".to_string())
    );
    assert!(update_pair_with(&mut c, pair("a", "A2", "/s1", "/d1"), false, &vec![false]).is_ok());
    assert_eq!(c.pairs[0].name, "A2");
}

#[test]
fn first_clash_name_takes_the_first_answer() {
    let mut a = pair("a", "A", "/s", "/d");
    a.compression.method = "deflate".to_string();
    let mut b = pair("b", "B", "/s", "/d");
    b.compression.method = "deflate".to_string();
    let mut me = pair("me", "Me", "/s", "/d");
    me.compression.method = "deflate".to_string();
    let pairs = vec![a.duplicate(), b.duplicate()];
    assert_eq!(first_clash_name(&pairs, "me", &me, &vec![false, true]), Some("B".to_string()));
    assert_eq!(first_clash_name(&pairs, "me", &me, &vec![true, true]), Some("A".to_string()));
    assert_eq!(first_clash_name(&pairs, "me", &me, &vec![false, false]), None);
    assert_eq!(first_clash_name(&pairs, "a", &me, &vec![true, false]), None);
}
