use reflet::archive::{
    archive_file_name, archive_path_with, archive_target, archive_target_with, classify, item, needs_crc,
    plan_archive, read_index, sanitize, source_files, state_entry, zip_options, ArchiveFile, ArchiveIndex,
    Change, StoredEntry, ZipCodec,
};
use reflet::archive_pass::{
    archive_held_message, archive_start, carry_first, cleanup_decision, cleanup_held_message, empty_source_message,
    ext_signature, external_start, record_cleanup, record_failure, record_file, record_rebuilt, record_removals,
    record_unlistable_destination, state_json, unreadable_message, ArchiveStart, CleanupDecision, ExternalStart,
    FileAttempt, after_step, first_step, record_start, record_external_start, record_cleanup_hold, FileStep,
    StepEvent,
};
use reflet::compression::CompressionConfig;
use reflet::config::{Settings, SyncPair};
use reflet::outcome::SyncOutcome;
use reflet::tree::{Entry, Tree};

fn pair(name: &str, dest: &str, method: &str, archive_name: &str) -> SyncPair {
    SyncPair {
        id: "p1".to_string(),
        name: name.to_string(),
        source: "/src".to_string(),
        destination: dest.to_string(),
        enabled: true,
        interval_sec_override: None,
        notify_pc: true,
        notify_app: true,
        ignore_patterns: vec![],
        watch_realtime: false,
        schedule_times: vec![],
        min_file_size: 0,
        max_file_size: 0,
        color: String::new(),
        compression: CompressionConfig {
            method: method.to_string(),
            level: 6,
            password: None,
            archive_name: archive_name.to_string(),
        },
        backup_mode: false,
        last_run: None,
    }
}

fn file(rel: &str, size: u64, mtime: i64, crc: Option<u32>) -> ArchiveFile {
    ArchiveFile { rel: rel.to_string(), size, mtime, crc }
}

fn stored(name: &str, crc: u32, size: u64) -> StoredEntry {
    StoredEntry { name: name.to_string(), is_dir: false, crc, size }
}

fn chars(s: &str) -> Vec<char> {
    s.chars().collect()
}

#[test]
fn sanitize_replaces_forbidden_characters() {
    assert_eq!(sanitize("a/b:c*d?e\"f<g>h|i\\j"), "a_b_c_d_e_f_g_h_i_j");
}

#[test]
fn sanitize_strips_trailing_dots_and_spaces_around_trimming() {
    assert_eq!(sanitize("  Photos. . "), "Photos");
    assert_eq!(sanitize("x. \t"), "x");
}

#[test]
fn sanitize_falls_back_to_archive() {
    assert_eq!(sanitize(""), "archive");
    assert_eq!(sanitize(" . . "), "archive");
}

#[test]
fn archive_name_uses_pair_name_when_blank() {
    let p = pair("Mes docs", "/backup", "deflate", "  ");
    assert_eq!(archive_file_name(&p), "Mes docs.zip");
    let q = pair("Mes docs", "/backup", "7z", "snap:shot");
    assert_eq!(archive_file_name(&q), "snap_shot.7z");
}

#[test]
fn archive_path_joins_with_separator() {
    let p = pair("docs", "/backup", "tar.gz", "");
    assert_eq!(archive_path_with(&p, '/'), "/backup/docs.tar.gz");
    let q = pair("docs", "/backup/", "zstd", "");
    assert_eq!(archive_path_with(&q, '/'), "/backup/docs.zip");
    let r = pair("docs", "D:", "bzip2", "");
    assert_eq!(archive_path_with(&r, '\\'), "D:docs.zip");
}

#[test]
fn archive_target_only_in_archive_mode() {
    let off = pair("docs", "/backup", "off", "");
    assert!(archive_target(&off).is_none());
    let mut backup = pair("docs", "/backup", "deflate", "");
    backup.backup_mode = true;
    assert!(archive_target(&backup).is_none());
    let on = pair("docs", "/backup", "deflate", "");
    assert_eq!(archive_target_with(&on, '/'), Some("/backup/docs.zip".to_string()));
}

#[test]
fn zip_options_clamp_levels() {
    let s = zip_options("store", 7);
    assert!(matches!(s.codec, ZipCodec::Stored));
    assert_eq!(s.level, None);
    let b = zip_options("bzip2", 0);
    assert!(matches!(b.codec, ZipCodec::Bzip2));
    assert_eq!(b.level, Some(1));
    let z = zip_options("zstd", 40);
    assert!(matches!(z.codec, ZipCodec::Zstd));
    assert_eq!(z.level, Some(22));
    let d = zip_options("deflate", 12);
    assert!(matches!(d.codec, ZipCodec::Deflated));
    assert_eq!(d.level, Some(9));
}

#[test]
fn read_index_combines_names_headers_and_state() {
    let names = vec![
        "a.txt".to_string(),
        "dir/".to_string(),
        ".reflet/state.json".to_string(),
        "secret.bin".to_string(),
    ];
    let st = vec![stored("a.txt", 7, 3), stored(".reflet/state.json", 1, 1)];
    let texts = vec!["{\"a.txt\": 100}".to_string(), "not json".to_string()];
    let idx = read_index(&names, &st, &texts);
    assert!(idx.readable());
    assert_eq!(idx.len(), 2);
    assert_eq!(idx.entry(&chars("a.txt")), Some((7, 3)));
    assert_eq!(idx.entry(&chars("secret.bin")), Some((0, 0)));
    assert_eq!(idx.entry(&chars("dir/")), None);
    assert_eq!(idx.entry(&chars(".reflet/state.json")), None);
    assert_eq!(idx.mtime(&chars("a.txt")), Some(100));
    assert_eq!(state_entry(), ".reflet/state.json");
}

#[test]
fn read_index_last_state_that_parses_wins() {
    let texts = vec!["{\"a\": 1}".to_string(), "{\"a\": 2, \"b\": 3}".to_string(), "[]".to_string()];
    let idx = read_index(&vec![], &vec![], &texts);
    assert_eq!(idx.mtime(&chars("a")), Some(2));
    assert_eq!(idx.mtime(&chars("b")), Some(3));
}

fn index_ab() -> ArchiveIndex {
    let st = vec![stored("a", 11, 10), stored("b", 22, 20)];
    let texts = vec!["{\"a\": 100, \"b\": 200}".to_string()];
    read_index(&vec![], &st, &texts)
}

#[test]
fn classify_new_unchanged_and_changed() {
    let idx = index_ab();
    assert!(matches!(classify(&file("c", 1, 0, None), &idx, 2, false), Change::New));
    assert!(matches!(classify(&file("a", 10, 101, None), &idx, 2, false), Change::Unchanged));
    assert!(matches!(classify(&file("a", 10, 110, Some(11)), &idx, 2, false), Change::Unchanged));
    assert!(matches!(classify(&file("a", 10, 110, Some(12)), &idx, 2, false), Change::Changed));
    assert!(matches!(classify(&file("a", 10, 110, None), &idx, 2, false), Change::Changed));
    assert!(matches!(classify(&file("a", 10, 100, Some(12)), &idx, 2, true), Change::Changed));
    assert!(matches!(classify(&file("a", 9, 100, Some(11)), &idx, 2, true), Change::Changed));
}

#[test]
fn needs_crc_only_when_fast_path_fails() {
    let idx = index_ab();
    assert!(!needs_crc(&idx, "c", 1, 0, 2, false));
    assert!(!needs_crc(&idx, "a", 10, 102, 2, false));
    assert!(needs_crc(&idx, "a", 10, 103, 2, false));
    assert!(needs_crc(&idx, "a", 10, 100, 2, true));
}

#[test]
fn source_files_keep_files_within_bounds() {
    let list = vec![
        Entry { rel: "big".to_string(), is_dir: false, size: 500, mtime: 1, digest: None },
        Entry { rel: "dir".to_string(), is_dir: true, size: 0, mtime: 1, digest: None },
        Entry { rel: "small".to_string(), is_dir: false, size: 5, mtime: 2, digest: None },
        Entry { rel: "mid".to_string(), is_dir: false, size: 50, mtime: 3, digest: None },
    ];
    let t = Tree::from_entries(list, false);
    let mut p = pair("docs", "/backup", "deflate", "");
    p.min_file_size = 10;
    p.max_file_size = 100;
    let fs = source_files(&p, &t);
    assert_eq!(fs.len(), 1);
    assert_eq!(fs[0].rel, "mid");
    assert_eq!(fs[0].size, 50);
    assert_eq!(fs[0].crc, None);
}

#[test]
fn plan_archive_builtin_lists_changes_and_cleanup() {
    let p = pair("docs", "/backup", "deflate", "");
    let s = Settings::default();
    let idx = index_ab();
    let files = vec![file("a", 10, 100, None), file("c", 7, 5, None), file("b", 21, 200, Some(0))];
    let dest = vec!["docs.zip".to_string(), "old.txt".to_string()];
    let plan = plan_archive(&p, &s, &files, &idx, &dest, true);
    assert!(plan.to_create_dir.is_empty());
    assert_eq!(plan.to_copy.len(), 1);
    assert_eq!(plan.to_copy[0].rel, "c");
    assert_eq!(plan.to_copy[0].reason, "nouveau");
    assert_eq!(plan.to_overwrite.len(), 1);
    assert_eq!(plan.to_overwrite[0].rel, "b");
    assert_eq!(plan.to_overwrite[0].reason, "modifié");
    assert_eq!(plan.to_delete.len(), 1);
    assert_eq!(plan.to_delete[0].rel, "old.txt");
    assert_eq!(plan.to_delete[0].reason, "nettoyage destination");
    assert_eq!(plan.total_bytes, 28);
    assert_eq!(plan.delete_pct, 0);
    assert!(!plan.aborted_safety);
}

#[test]
fn plan_archive_builtin_holds_back_mass_removal() {
    let p = pair("docs", "/backup", "zstd", "");
    let s = Settings::default();
    let idx = index_ab();
    let files = vec![file("c", 1, 1, None)];
    let plan = plan_archive(&p, &s, &files, &idx, &vec![], true);
    assert_eq!(plan.to_delete.len(), 2);
    assert_eq!(plan.to_delete[0].rel, "a");
    assert_eq!(plan.to_delete[0].reason, "retiré de l'archive");
    assert_eq!(plan.to_delete[1].rel, "b");
    assert_eq!(plan.delete_pct, 100);
    assert!(plan.aborted_safety);
    let mut relaxed = Settings::default();
    relaxed.delete_safety_threshold_pct = 100;
    let plan2 = plan_archive(&p, &relaxed, &files, &idx, &vec![], true);
    assert!(!plan2.aborted_safety);
}

#[test]
fn plan_archive_external_rebuilds_everything() {
    let p = pair("docs", "/backup", "7z", "");
    let s = Settings::default();
    let idx = ArchiveIndex::empty(true);
    let files = vec![file("a", 3, 1, None), file("b", 4, 1, None)];
    let dest = vec!["docs.7z".to_string(), "stale.zip".to_string()];
    let plan = plan_archive(&p, &s, &files, &idx, &dest, false);
    assert!(plan.to_copy.is_empty());
    assert_eq!(plan.to_overwrite.len(), 2);
    assert_eq!(plan.to_overwrite[1].reason, "archive (reconstruction complète)");
    assert_eq!(plan.to_delete.len(), 1);
    assert_eq!(plan.to_delete[0].rel, "stale.zip");
    assert_eq!(plan.total_bytes, 7);
}

#[test]
fn second_archive_pass_over_unchanged_source_is_idle() {
    let p = pair("docs", "/backup", "deflate", "");
    let s = Settings::default();
    let idx = index_ab();
    let files = vec![file("a", 10, 100, None), file("b", 20, 200, None)];
    let plan = plan_archive(&p, &s, &files, &idx, &vec!["docs.zip".to_string()], true);
    assert!(plan.to_copy.is_empty());
    assert!(plan.to_overwrite.is_empty());
    assert!(plan.to_delete.is_empty());
    assert_eq!(plan.total_bytes, 0);
    assert!(!plan.aborted_safety);
}

#[test]
fn plan_archive_previews_unreadable_archive_as_held() {
    let p = pair("docs", "/backup", "deflate", "");
    let s = Settings::default();
    let idx = ArchiveIndex::empty(false);
    let files = vec![file("a", 10, 100, None)];
    let plan = plan_archive(&p, &s, &files, &idx, &vec!["docs.zip".to_string()], true);
    assert!(plan.aborted_safety);
    let fresh = plan_archive(&p, &s, &files, &idx, &vec![], false);
    assert!(!fresh.aborted_safety);
}

#[test]
fn plan_archive_previews_empty_source_over_external_archive_as_held() {
    let p = pair("docs", "/backup", "7z", "");
    let s = Settings::default();
    let idx = ArchiveIndex::empty(true);
    let plan = plan_archive(&p, &s, &vec![], &idx, &vec!["docs.7z".to_string()], true);
    assert!(plan.aborted_safety);
    let first = plan_archive(&p, &s, &vec![], &idx, &vec![], false);
    assert!(!first.aborted_safety);
}

#[test]
fn plan_archive_previews_held_cleanup() {
    let p = pair("docs", "/backup", "deflate", "");
    let s = Settings::default();
    let idx = index_ab();
    let files = vec![file("a", 10, 100, None), file("b", 20, 200, None)];
    let dest = vec!["docs.zip".to_string(), "x".to_string(), "y".to_string()];
    let plan = plan_archive(&p, &s, &files, &idx, &dest, true);
    assert_eq!(plan.to_delete.len(), 2);
    assert!(plan.aborted_safety);
}

#[test]
fn item_is_a_file_line() {
    let it = item("x", 3, "nouveau");
    assert_eq!(it.rel, "x");
    assert!(!it.is_dir);
    assert_eq!(it.size, 3);
    assert_eq!(it.reason, "nouveau");
}

#[test]
fn archive_start_cases() {
    let idx = index_ab();
    let unreadable = ArchiveIndex::empty(false);
    assert!(matches!(archive_start(true, &unreadable, &vec![], 50), ArchiveStart::Unreadable));
    assert!(matches!(archive_start(false, &unreadable, &vec![], 50), ArchiveStart::Proceed));
    match archive_start(true, &idx, &vec![file("a", 1, 1, None)], 40) {
        ArchiveStart::HeldBack { pct, removed, prev } => {
            assert_eq!((pct, removed, prev), (50, 1, 2));
        }
        _ => panic!("expected a hold"),
    }
    assert!(matches!(archive_start(true, &idx, &vec![file("a", 1, 1, None)], 50), ArchiveStart::Proceed));
}

#[test]
fn archive_messages_are_exact() {
    assert_eq!(
        archive_held_message(50, 1, 2, 40),
        "Sauvegarde RETENUE : 50% du contenu de l'archive (1/2) disparaîtrait, seuil 40%. Vérifie la source puis relance."
    );
    assert_eq!(
        unreadable_message(),
        "Archive existante illisible (verrouillée ou corrompue) — synchro annulée pour ne pas l'écraser."
    );
    assert_eq!(
        cleanup_held_message(75, 3, 4, 50),
        "Nettoyage destination RETENU : 75% des fichiers (3/4) seraient supprimés, seuil 50%. Augmente le seuil (Réglages) ou vide le dossier toi-même si c'est voulu."
    );
    assert_eq!(
        empty_source_message(),
        "Source vide alors qu'une archive existe — sauvegarde retenue (vérifie la source)."
    );
}

#[test]
fn record_file_counts_each_attempt() {
    let mut out = SyncOutcome::default();
    assert!(carry_first(&Change::Unchanged));
    assert!(!carry_first(&Change::New));
    let (kept, log) = record_file(&mut out, &Change::Unchanged, FileAttempt::Carried, "a");
    assert!(kept && log.is_none());
    let (kept, log) = record_file(&mut out, &Change::Changed, FileAttempt::Written, "b");
    assert!(kept);
    assert_eq!(log.unwrap().message, "mis à jour dans l'archive");
    let (_, log) = record_file(&mut out, &Change::New, FileAttempt::Written, "c");
    assert_eq!(log.unwrap().action, "copy");
    let (kept, log) = record_file(&mut out, &Change::New, FileAttempt::WriteFailed { carried: true }, "d");
    assert!(kept);
    assert_eq!(log.unwrap().message, "écriture échec — version précédente conservée");
    let (kept, log) = record_file(&mut out, &Change::New, FileAttempt::SourceMissing, "e");
    assert!(!kept);
    assert_eq!(log.unwrap().level, "warn");
    let (kept, log) = record_file(
        &mut out,
        &Change::Changed,
        FileAttempt::SourceUnreadable { carried: false, error: "denied".to_string() },
        "f",
    );
    assert!(!kept);
    assert_eq!(log.unwrap().message, "lecture source échec : denied");
    let (kept, _) = record_file(
        &mut out,
        &Change::Changed,
        FileAttempt::SourceUnreadable { carried: true, error: "x".to_string() },
        "g",
    );
    assert!(kept);
    assert_eq!((out.copied, out.updated, out.errors, out.deleted), (1, 1, 2, 0));
}

#[test]
fn record_removals_counts_vanished_names() {
    let idx = index_ab();
    let mut out = SyncOutcome::default();
    let logs = record_removals(&mut out, &idx, &vec![file("b", 1, 1, None)]);
    assert_eq!(out.deleted, 1);
    assert_eq!(logs.len(), 1);
    assert_eq!(logs[0].path.as_deref(), Some("a"));
    assert_eq!(logs[0].message, "retiré de l'archive");
}

#[test]
fn cleanup_decision_never_deletes_the_archive() {
    let names = vec!["docs.zip".to_string(), "a".to_string(), "b".to_string()];
    match cleanup_decision(&names, "docs.zip", 100) {
        CleanupDecision::Delete(v) => assert_eq!(v, vec![1, 2]),
        _ => panic!("expected deletions"),
    }
    match cleanup_decision(&names, "docs.zip", 50) {
        CleanupDecision::HeldBack { pct, count, total } => assert_eq!((pct, count, total), (66, 2, 3)),
        _ => panic!("expected a hold"),
    }
    assert!(matches!(cleanup_decision(&vec!["docs.zip".to_string()], "docs.zip", 0), CleanupDecision::Nothing));
    assert!(matches!(cleanup_decision(&vec![], "docs.zip", 0), CleanupDecision::Nothing));
    match cleanup_decision(&vec!["x".to_string()], "docs.zip", 99) {
        CleanupDecision::HeldBack { pct, count, total } => assert_eq!((pct, count, total), (100, 1, 1)),
        _ => panic!("expected a hold"),
    }
}

#[test]
fn cleanup_and_failure_records() {
    let mut out = SyncOutcome::default();
    assert!(record_cleanup(&mut out, "/d/a", Ok(())).is_none());
    let l = record_cleanup(&mut out, "/d/b", Err("busy".to_string())).unwrap();
    assert_eq!(l.message, "nettoyage destination échec : busy");
    let l = record_unlistable_destination(&mut out, "gone");
    assert_eq!(l.message, "nettoyage destination ignoré : lecture impossible (gone)");
    let l = record_failure(&mut out, "création archive échec : ", "disk full");
    assert_eq!(l.message, "création archive échec : disk full");
    assert_eq!((out.deleted, out.errors), (1, 3));
}

#[test]
fn external_start_cases() {
    assert!(matches!(external_start(0, true, &None, "s"), ExternalStart::HeldBack));
    assert!(matches!(external_start(3, true, &Some("s".to_string()), "s"), ExternalStart::UpToDate));
    assert!(matches!(external_start(3, false, &Some("s".to_string()), "s"), ExternalStart::Rebuild));
    assert!(matches!(external_start(3, true, &Some("t".to_string()), "s"), ExternalStart::Rebuild));
    assert!(matches!(external_start(0, false, &None, "s"), ExternalStart::Rebuild));
}

#[test]
fn ext_signature_ignores_order_and_sees_changes() {
    let a = vec![file("x", 1, 2, None), file("y", 3, 4, None)];
    let b = vec![file("y", 3, 4, None), file("x", 1, 2, None)];
    let c = vec![file("y", 3, 5, None), file("x", 1, 2, None)];
    let sa = ext_signature(&a);
    assert_eq!(sa.len(), 64);
    assert!(sa.chars().all(|ch| ch.is_ascii_hexdigit() && !ch.is_ascii_uppercase()));
    assert_eq!(sa, ext_signature(&b));
    assert_ne!(sa, ext_signature(&c));
}

#[test]
fn ext_signature_of_nothing_is_hash_of_nothing() {
    assert_eq!(ext_signature(&vec![]), "af1349b9f5f9a1a6a0404dea36dcc9499bcb25c9adc112b7cc9a93cae41f3262");
}

#[test]
fn record_rebuilt_counts_every_file() {
    let mut out = SyncOutcome::default();
    let l = record_rebuilt(&mut out, "7z", 12);
    assert_eq!(out.copied, 12);
    assert_eq!(l.message, "archive 7z recréée (12 fichiers)");
}

#[test]
fn state_json_is_sorted_object() {
    let kept = vec![("b".to_string(), 2i64), ("a".to_string(), -1i64), ("b".to_string(), 3i64)];
    assert_eq!(state_json(&kept), Some("{\"a\":-1,\"b\":3}".to_string()));
}

#[test]
fn sanitize_strips_dots_left_after_trimming() {
    assert_eq!(sanitize("a.\t"), "a");
    assert_eq!(sanitize("a .\t"), "a");
    assert_eq!(sanitize(" . "), "archive");
    assert_eq!(sanitize("Doc:s. "), "Doc_s");
}

#[test]
fn file_steps_carry_then_write_then_carry() {
    assert!(matches!(first_step(&Change::Unchanged), FileStep::Carry));
    assert!(matches!(first_step(&Change::New), FileStep::Write));
    assert!(matches!(after_step(FileStep::Carry, StepEvent::Carried(true)), Ok(FileAttempt::Carried)));
    assert!(matches!(after_step(FileStep::Carry, StepEvent::Carried(false)), Err(FileStep::Write)));
    assert!(matches!(after_step(FileStep::Write, StepEvent::WriteFailed), Err(FileStep::CarryAfterFailedWrite)));
    assert!(matches!(
        after_step(FileStep::CarryAfterFailedWrite, StepEvent::Carried(true)),
        Ok(FileAttempt::WriteFailed { carried: true })
    ));
    match after_step(FileStep::Write, StepEvent::SourceUnreadable("e".to_string())) {
        Err(FileStep::CarryAfterUnreadable { error }) => {
            assert_eq!(error, "e");
            match after_step(FileStep::CarryAfterUnreadable { error }, StepEvent::Carried(false)) {
                Ok(FileAttempt::SourceUnreadable { carried, error }) => {
                    assert!(!carried);
                    assert_eq!(error, "e");
                }
                _ => panic!("unexpected step"),
            }
        }
        _ => panic!("unexpected step"),
    }
    assert!(matches!(after_step(FileStep::Write, StepEvent::SourceMissing), Ok(FileAttempt::SourceMissing)));
}

#[test]
fn holds_are_recorded_with_their_message() {
    let mut out = reflet::outcome::SyncOutcome::default();
    let r = record_start(&mut out, &ArchiveStart::Unreadable, 50).unwrap();
    assert!(out.aborted_safety);
    assert_eq!(r.1, unreadable_message());
    assert_eq!(r.0.level, "error");
    let mut out2 = reflet::outcome::SyncOutcome::default();
    assert!(record_start(&mut out2, &ArchiveStart::Proceed, 50).is_none());
    assert!(!out2.aborted_safety);
    let mut out3 = reflet::outcome::SyncOutcome::default();
    let r3 = record_external_start(&mut out3, &ExternalStart::HeldBack).unwrap();
    assert_eq!(r3.1, empty_source_message());
    assert!(out3.aborted_safety);
    let mut out4 = reflet::outcome::SyncOutcome::default();
    let r4 = record_cleanup_hold(&mut out4, &CleanupDecision::HeldBack { pct: 66, count: 2, total: 3 }, 50).unwrap();
    assert_eq!(r4.1, cleanup_held_message(66, 2, 3, 50));
    assert_eq!(r4.0.level, "warn");
    assert!(out4.aborted_safety);
}
