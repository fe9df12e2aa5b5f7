use reflet::compression::CompressionConfig;
use reflet::config::{Settings, SyncPair};
use reflet::outcome::{
    last_run_of, pair_status_after, progress_due, progress_step, run_status, succeeded, summary_body,
    summary_title, SyncOutcome,
};
use reflet::pass::{
    archive_temp_name, backup_done_log, backup_folder, check_url, copy_temp_name, disabled_message,
    enabled_positions, error_notice, held_deletions_alert, held_deletions_log, mirror_start, missing_folder,
    notifies_desktop, pass_kind, prefers_trash, previews_archive, record_backup_entry,
    record_copy, record_delete, record_mkdir, deletions_to_run, steps_to_run, CopyResult, PassKind,
};
use reflet::plan::{
    build_plan, check_pair, detect_changed, digests_needed, dry_run, plan_to_dto, plan_trees, reason_string, ChangeReason, CopyOp, ExecPlan,
};
use reflet::tree::{norm_key, Entry, Tree};
use reflet::paths::ResolvedFolders;

fn res(a: &str, b: &str) -> ResolvedFolders {
    ResolvedFolders { source: a.to_string(), destination: b.to_string() }
}

fn entry(rel: &str, is_dir: bool, size: u64, mtime: i64) -> Entry {
    Entry { rel: rel.to_string(), is_dir, size, mtime, digest: None }
}

fn pair(source: &str, dest: &str) -> SyncPair {
    SyncPair {
        id: "p".to_string(),
        name: "Docs".to_string(),
        source: source.to_string(),
        destination: dest.to_string(),
        enabled: true,
        interval_sec_override: None,
        notify_pc: true,
        notify_app: true,
        ignore_patterns: vec![],
        watch_realtime: false,
        schedule_times: vec![],
        min_file_size: 0,
        max_file_size: 0,
        color: String::new(),
        compression: CompressionConfig { method: "off".to_string(), level: 0, password: None, archive_name: String::new() },
        backup_mode: false,
        last_run: None,
    }
}

fn source_tree() -> Tree {
    Tree::from_entries(
        vec![
            entry("d", true, 0, 1),
            entry("d/f.txt", false, 5, 100),
            entry("a.txt", false, 3, 10),
            entry("same.txt", false, 4, 50),
        ],
        false,
    )
}

fn dest_tree() -> Tree {
    Tree::from_entries(
        vec![
            entry("same.txt", false, 4, 51),
            entry("a.txt", false, 9, 10),
            entry("old", true, 0, 1),
            entry("old/x", false, 1, 1),
            entry("zz.txt", false, 2, 2),
        ],
        false,
    )
}

#[test]
fn detect_changed_by_size_time_and_content() {
    let a = entry("f", false, 10, 100);
    assert_eq!(detect_changed(&a, &entry("f", false, 11, 100), 2, false), Some(ChangeReason::Size));
    assert_eq!(detect_changed(&a, &entry("f", false, 10, 103), 2, false), Some(ChangeReason::Mtime));
    assert_eq!(detect_changed(&a, &entry("f", false, 10, 98), 2, false), None);
    let mut x = a.duplicate();
    x.digest = Some([1u8; 32]);
    let mut y = a.duplicate();
    y.digest = Some([2u8; 32]);
    assert_eq!(detect_changed(&x, &y, 2, true), Some(ChangeReason::Content));
    assert_eq!(detect_changed(&x, &y, 2, false), None);
    assert_eq!(detect_changed(&x, &a, 2, true), None);
    assert_eq!(reason_string(ChangeReason::Mtime), "mtime");
}

#[test]
fn detect_changed_extreme_times() {
    let a = entry("f", false, 1, i64::MIN);
    let b = entry("f", false, 1, i64::MAX);
    assert_eq!(detect_changed(&a, &b, i64::MAX, false), Some(ChangeReason::Mtime));
}

#[test]
fn tree_keeps_last_entry_per_key() {
    let t = Tree::from_entries(vec![entry("B", false, 1, 1), entry("a", false, 2, 2), entry("b", false, 3, 3)], true);
    assert_eq!(t.len(), 2);
    assert_eq!(t.get(0).rel, "a");
    assert_eq!(t.get(1).rel, "b");
    assert_eq!(t.get(1).size, 3);
    assert_eq!(norm_key("Dir/File.TXT", true), "dir/file.txt");
    assert_eq!(norm_key("Dir/File.TXT", false), "Dir/File.TXT");
}

#[test]
fn mirror_plan_copies_creates_and_prunes_deletions() {
    let plan = plan_trees(&source_tree(), &dest_tree(), 2, false, 50);
    assert_eq!(plan.create_dirs, vec!["d".to_string()]);
    assert_eq!(plan.copies.len(), 2);
    assert_eq!(plan.copies[0].rel, "a.txt");
    assert_eq!(plan.copies[0].reason, ChangeReason::Size);
    assert!(!plan.copies[0].is_new);
    assert_eq!(plan.copies[1].rel, "d/f.txt");
    assert!(plan.copies[1].is_new);
    assert_eq!(plan.deletes.len(), 2);
    assert_eq!(plan.deletes[0].rel, "old");
    assert!(plan.deletes[0].is_dir);
    assert_eq!(plan.deletes[1].rel, "zz.txt");
    assert_eq!(plan.total_bytes, 8);
    assert_eq!(plan.extra_entries, 3);
    assert_eq!(plan.dest_total, 5);
    assert_eq!(plan.delete_pct, 60);
    assert!(plan.aborted_safety);
    let relaxed = plan_trees(&source_tree(), &dest_tree(), 2, false, 60);
    assert!(!relaxed.aborted_safety);
}

#[test]
fn mirror_plan_conflicting_kinds() {
    let src = Tree::from_entries(vec![entry("x", true, 0, 1), entry("y", false, 4, 1)], false);
    let dst = Tree::from_entries(vec![entry("x", false, 2, 1), entry("y", true, 0, 1)], false);
    let plan = plan_trees(&src, &dst, 2, false, 100);
    assert_eq!(plan.create_dirs, vec!["x".to_string()]);
    assert_eq!(plan.copies.len(), 1);
    assert!(plan.copies[0].is_new);
    assert_eq!(plan.deletes.len(), 2);
    assert_eq!(plan.deletes[0].rel, "x");
    assert!(!plan.deletes[0].is_dir);
    assert_eq!(plan.deletes[1].rel, "y");
    assert!(plan.deletes[1].is_dir);
}

#[test]
fn folders_are_created_shallowest_first() {
    let src = Tree::from_entries(vec![entry("a/b/c", true, 0, 1), entry("a", true, 0, 1), entry("a/b", true, 0, 1), entry("z", true, 0, 1)], false);
    let plan = plan_trees(&src, &Tree::new(false), 2, false, 50);
    assert_eq!(plan.create_dirs, vec!["a".to_string(), "z".to_string(), "a/b".to_string(), "a/b/c".to_string()]);
}

#[test]
fn second_mirror_pass_is_idle() {
    let t = dest_tree();
    let plan = plan_trees(&t, &t, 2, true, 50);
    assert!(plan.create_dirs.is_empty());
    assert!(plan.copies.is_empty());
    assert!(plan.deletes.is_empty());
    assert_eq!(plan.delete_pct, 0);
    assert!(!plan.aborted_safety);
}

#[test]
fn preview_of_mirror_plan() {
    let plan = plan_trees(&source_tree(), &dest_tree(), 2, false, 50);
    let dto = plan_to_dto(&plan);
    assert_eq!(dto.to_create_dir, vec!["d".to_string()]);
    assert_eq!(dto.to_copy.len(), 1);
    assert_eq!(dto.to_copy[0].rel, "d/f.txt");
    assert_eq!(dto.to_copy[0].reason, "new");
    assert_eq!(dto.to_overwrite.len(), 1);
    assert_eq!(dto.to_overwrite[0].reason, "size");
    assert_eq!(dto.to_delete.len(), 2);
    assert_eq!(dto.to_delete[0].reason, "extra");
    assert!(dto.to_delete[0].is_dir);
    assert_eq!(dto.total_bytes, 8);
    assert_eq!(dto.delete_pct, 60);
    assert!(dto.aborted_safety);
}

#[test]
fn build_plan_refusals() {
    let s = Settings::default();
    let (src, dst) = (source_tree(), dest_tree());
    assert_eq!(
        build_plan(&pair("  ", "/x"), &s, &src, &dst, &res("  ", "/x"), true).err(),
        Some("Source ou destination vide".to_string())
    );
    assert_eq!(
        build_plan(&pair("/reflet_missing_a", "/reflet_missing_a/b"), &s, &src, &dst, &res("/reflet_missing_a", "/reflet_missing_a/b"), true).err(),
        Some("Source et destination imbriquées (interdit)".to_string())
    );
    assert_eq!(
        dry_run(&pair("/reflet_missing_src", "/reflet_missing_dst"), &s, &src, &dst, &res("/reflet_missing_src", "/reflet_missing_dst"), false).err(),
        Some("Source introuvable : /reflet_missing_src (synchro annulée pour éviter d'effacer la destination)".to_string())
    );
}

#[test]
fn build_plan_respects_size_bounds() {
    let s = Settings::default();
    let mut p = pair("/", "/reflet_missing_dst");
    p.min_file_size = 4;
    let plan = build_plan(&p, &s, &source_tree(), &dest_tree(), &res("/", "/reflet_missing_dst"), true).ok().unwrap();
    assert_eq!(plan.copies.len(), 1);
    assert_eq!(plan.copies[0].rel, "d/f.txt");
    let preview = dry_run(&p, &s, &source_tree(), &dest_tree(), &res("/", "/reflet_missing_dst"), true).ok().unwrap();
    assert_eq!(preview.to_copy.len(), 1);
}

#[test]
fn pass_kinds_and_previews() {
    let mut p = pair("/a", "/b");
    assert!(matches!(pass_kind(&p), PassKind::Mirror));
    assert!(!previews_archive(&p));
    p.compression.method = "zstd".to_string();
    assert!(matches!(pass_kind(&p), PassKind::Archive));
    assert!(previews_archive(&p));
    p.backup_mode = true;
    assert!(matches!(pass_kind(&p), PassKind::Backup));
    assert!(!previews_archive(&p));
}

#[test]
fn missing_folder_reasons() {
    let p = pair("/src", "/dst");
    assert_eq!(missing_folder(&p, false, true, true), Some("dossier source introuvable (/src)".to_string()));
    assert_eq!(missing_folder(&pair("/src", " "), true, true, true), Some("destination non definie".to_string()));
    assert_eq!(missing_folder(&p, true, false, false), Some("dossier destination injoignable (/dst)".to_string()));
    assert_eq!(missing_folder(&p, true, false, true), None);
    assert_eq!(missing_folder(&pair("", "/dst"), true, true, true), Some("dossier source introuvable ()".to_string()));
    assert_eq!(disabled_message("Docs", "destination non definie"), "Paire « Docs » desactivee : destination non definie");
}

#[test]
fn mirror_records() {
    let plan = plan_trees(&source_tree(), &dest_tree(), 2, false, 50);
    let mut out = mirror_start(&plan);
    assert!(out.aborted_safety);
    assert!(record_mkdir(&mut out, "d", Ok(())).is_none());
    assert_eq!(record_mkdir(&mut out, "d", Err("no".to_string())).unwrap().message, "mkdir échec : no");
    let upd = CopyOp { rel: "a".to_string(), size: 1, reason: ChangeReason::Mtime, is_new: false };
    assert_eq!(record_copy(&mut out, &upd, CopyResult::Done).message, "mis à jour (mtime)");
    let new = CopyOp { rel: "b".to_string(), size: 1, reason: ChangeReason::New, is_new: true };
    assert_eq!(record_copy(&mut out, &new, CopyResult::Done).message, "copié");
    assert_eq!(record_copy(&mut out, &new, CopyResult::SourceMissing).message, "ignoré (source introuvable)");
    assert_eq!(record_copy(&mut out, &new, CopyResult::Failed("io".to_string())).message, "copie échec : io");
    assert_eq!(record_delete(&mut out, "z", Ok(())).message, "supprimé");
    assert_eq!(record_delete(&mut out, "z", Err("busy".to_string())).message, "suppression échec : busy");
    assert_eq!((out.copied, out.updated, out.deleted, out.errors), (1, 1, 1, 3));
    assert_eq!(
        held_deletions_log(&plan, 50).message,
        "Suppressions RETENUES : 60% de la destination (3/5 entrées) serait supprimé, seuil = 50%. Vérifie la source puis relance."
    );
    assert_eq!(held_deletions_alert(&plan, 50), "Suppressions retenues (seuil sécurité 50% dépassé : 60%)");
}

#[test]
fn backup_records() {
    assert_eq!(backup_folder("2024-01-02_03-04-05"), "backup-2024-01-02_03-04-05");
    let mut out = SyncOutcome::default();
    assert!(record_backup_entry(&mut out, "d", true, Ok(())).is_none());
    assert_eq!(record_backup_entry(&mut out, "f", false, Ok(())).unwrap().message, "sauvegardé");
    assert_eq!(record_backup_entry(&mut out, "g", false, Err("x".to_string())).unwrap().message, "copie échec : x");
    assert_eq!(record_backup_entry(&mut out, "h", true, Err("y".to_string())).unwrap().message, "mkdir échec : y");
    assert_eq!((out.copied, out.errors), (1, 2));
    assert_eq!(backup_done_log("S", &out).message, "Sauvegarde créée : backup-S (1 fichiers)");
}

#[test]
fn small_decisions() {
    assert_eq!(copy_temp_name(42, 7), ".synctmp-42-7");
    assert_eq!(archive_temp_name(42), ".reflet-arc-42.tmp");
    assert!(prefers_trash("trash"));
    assert!(!prefers_trash("permanent"));
    assert!(check_url("https://example.org").is_ok());
    assert!(check_url("http://example.org").is_ok());
    assert_eq!(check_url("file:///etc/passwd").err(), Some("URL invalide".to_string()));
    let mut a = pair("/a", "/b");
    let mut b = pair("/c", "/d");
    b.enabled = false;
    a.id = "a".to_string();
    let c = pair("/e", "/f");
    assert_eq!(enabled_positions(&vec![a, b, c]), vec![0, 2]);
    let s = Settings::default();
    assert!(!notifies_desktop(&s, &pair("/a", "/b")));
    assert_eq!(error_notice("Docs", "boom"), "Docs : boom");
}

#[test]
fn outcome_reports() {
    let mut out = SyncOutcome::default();
    assert!(succeeded(&out));
    assert_eq!(run_status(&out), "ok");
    assert_eq!(pair_status_after(&out), "idle");
    assert_eq!(summary_title(&out), "Reflet — synchro terminée");
    out.copied = 3;
    out.updated = 1;
    assert_eq!(summary_body("Docs", &out), "Docs : 3 copiés, 1 màj, 0 supprimés");
    out.errors = 2;
    assert_eq!(summary_body("Docs", &out), "Docs : 3 copiés, 1 màj, 0 supprimés, 2 erreurs");
    assert_eq!(run_status(&out), "error");
    assert_eq!(summary_title(&out), "Reflet — synchro avec erreurs");
    let held = SyncOutcome { aborted_safety: true, ..SyncOutcome::default() };
    assert_eq!(pair_status_after(&held), "error");
    let lr = last_run_of("2024-01-01T00:00:00Z".to_string(), &out);
    assert_eq!(lr.status, "error");
    assert_eq!(lr.copied, 3);
    assert_eq!(progress_step(1000), 20);
    assert_eq!(progress_step(10), 1);
    assert!(progress_due(40, 20));
    assert!(!progress_due(41, 20));
}

#[test]
fn exec_plan_fields_are_public() {
    let p = ExecPlan {
        create_dirs: vec![],
        copies: vec![],
        deletes: vec![],
        total_bytes: 0,
        extra_entries: 0,
        dest_total: 0,
        delete_pct: 0,
        aborted_safety: false,
    };
    assert!(!mirror_start(&p).aborted_safety);
}

#[test]
fn deletions_go_deepest_first() {
    let src = Tree::from_entries(vec![entry("d", false, 1, 1)], false);
    let dst = Tree::from_entries(
        vec![entry("d", true, 0, 1), entry("d/x", false, 1, 1), entry("a", true, 0, 1), entry("a-x", false, 1, 1), entry("a/b", false, 1, 1)],
        false,
    );
    let plan = plan_trees(&src, &dst, 2, false, 100);
    let rels: Vec<&str> = plan.deletes.iter().map(|d| d.rel.as_str()).collect();
    let pos = |r: &str| rels.iter().position(|x| *x == r);
    assert_eq!(pos("d/x").unwrap() < pos("d").unwrap(), true);
    if let Some(ab) = pos("a/b") {
        assert!(ab < pos("a").unwrap());
    }
    assert!(pos("a-x").is_some());
}

#[test]
fn held_back_plan_runs_no_deletion() {
    let plan = plan_trees(&source_tree(), &dest_tree(), 2, false, 50);
    assert!(plan.aborted_safety);
    assert!(deletions_to_run(&plan).is_empty());
    let relaxed = plan_trees(&source_tree(), &dest_tree(), 2, false, 60);
    assert_eq!(deletions_to_run(&relaxed), (0..relaxed.deletes.len()).collect::<Vec<usize>>());
}

#[test]
fn check_pair_orders_its_refusals() {
    let p = pair("/data/a", "/data/a/b");
    assert_eq!(check_pair(&p, true, false), Some("Source et destination imbriquées (interdit)".to_string()));
    assert_eq!(
        check_pair(&p, false, false),
        Some("Source introuvable : /data/a (synchro annulée pour éviter d'effacer la destination)".to_string())
    );
    assert_eq!(check_pair(&p, false, true), None);
    let blank = pair("  ", "/x");
    assert_eq!(check_pair(&blank, true, false), Some("Source ou destination vide".to_string()));
}

#[test]
fn digests_only_for_files_of_equal_size_and_time() {
    let src = Tree::from_entries(
        vec![entry("same", false, 4, 10), entry("bigger", false, 9, 10), entry("older", false, 4, 1), entry("new", false, 4, 10), entry("d", true, 0, 10)],
        false,
    );
    let dst = Tree::from_entries(
        vec![entry("same", false, 4, 11), entry("bigger", false, 3, 10), entry("older", false, 4, 100), entry("d", true, 0, 10)],
        false,
    );
    let pairs = digests_needed(&src, &dst, 2);
    assert_eq!(pairs.len(), 1);
    let (i, j) = pairs[0];
    assert_eq!(src.get(i).rel, "same");
    assert_eq!(dst.get(j).rel, "same");
}

#[test]
fn second_pass_idle_within_tolerance() {
    let src = Tree::from_entries(vec![entry("d", true, 0, 5), entry("d/f", false, 3, 100)], false);
    let dst = Tree::from_entries(vec![entry("d", true, 0, 7), entry("d/f", false, 3, 102)], false);
    let plan = plan_trees(&src, &dst, 2, false, 50);
    assert!(plan.create_dirs.is_empty());
    assert!(plan.copies.is_empty());
    assert!(plan.deletes.is_empty());
    assert!(!plan.aborted_safety);
    let strict = plan_trees(&src, &dst, 1, false, 50);
    assert_eq!(strict.copies.len(), 1);
}

#[test]
fn plan_touches_only_listed_paths() {
    let src = source_tree();
    let dst = dest_tree();
    let plan = plan_trees(&src, &dst, 2, false, 100);
    let listed = |r: &str| (0..src.len()).any(|i| src.get(i).rel == r) || (0..dst.len()).any(|i| dst.get(i).rel == r);
    assert!(plan.create_dirs.iter().all(|d| listed(d)));
    assert!(plan.copies.iter().all(|c| listed(&c.rel)));
    assert!(plan.deletes.iter().all(|d| listed(&d.rel)));
}

#[test]
fn held_back_plan_runs_no_step_at_all() {
    let plan = plan_trees(&source_tree(), &dest_tree(), 2, false, 50);
    assert!(plan.aborted_safety);
    let steps = steps_to_run(&plan);
    assert!(steps.create_dirs.is_empty() && steps.copies.is_empty() && steps.deletes.is_empty());
    let relaxed = plan_trees(&source_tree(), &dest_tree(), 2, false, 60);
    let all = steps_to_run(&relaxed);
    assert_eq!(all.create_dirs, (0..relaxed.create_dirs.len()).collect::<Vec<usize>>());
    assert_eq!(all.copies, (0..relaxed.copies.len()).collect::<Vec<usize>>());
    assert_eq!(all.deletes, (0..relaxed.deletes.len()).collect::<Vec<usize>>());
}

#[test]
fn second_pass_idle_up_to_case_when_folding() {
    let src = Tree::from_entries(vec![entry("Docs", true, 0, 5), entry("Docs/A.txt", false, 3, 100)], true);
    let dst = Tree::from_entries(vec![entry("docs", true, 0, 5), entry("docs/a.TXT", false, 3, 101)], true);
    let plan = plan_trees(&src, &dst, 2, false, 50);
    assert!(plan.create_dirs.is_empty());
    assert!(plan.copies.is_empty());
    assert!(plan.deletes.is_empty());
}
