//! One pass over a pair: which kind of pass it is, when it cannot run, and
//! what the steps of a mirror or backup pass count and log.
use vstd::prelude::*;
use crate::text::{decimal, decimal_string, is_blank, push_str, str_equal, trimmed};
use crate::config::{Settings, SyncPair};
use crate::outcome::{LogLine, SyncOutcome, joined, log_about, log_general, log_is};
use crate::plan::{CopyOp, ExecPlan, reason_string, reason_text};

verus! {

/// The three ways of passing over a pair.
pub enum PassKind {
    /// Copy the whole source into a dated folder.
    Backup,
    /// Keep the source as one archive.
    Archive,
    /// Make the destination a mirror of the source.
    Mirror,
}

/// The kind of pass of a pair: backup mode first, then archive when a method
/// other than `off` is chosen, else mirror.
pub open spec fn pass_kind_spec(pair: SyncPair) -> PassKind {
    if pair.backup_mode {
        PassKind::Backup
    } else if pair.compression.method@ != "off"@ {
        PassKind::Archive
    } else {
        PassKind::Mirror
    }
}

/// The kind of pass of a pair.
pub fn pass_kind(pair: &SyncPair) -> (r: PassKind)
    ensures
        r == pass_kind_spec(*pair),
{
    if pair.backup_mode {
        PassKind::Backup
    } else if !str_equal(pair.compression.method.as_str(), "off") {
        PassKind::Archive
    } else {
        PassKind::Mirror
    }
}

/// Whether the preview of a pair is that of its archive.
pub fn previews_archive(pair: &SyncPair) -> (r: bool)
    ensures
        r == crate::archive::archive_mode(*pair),
{
    !str_equal(pair.compression.method.as_str(), "off") && !pair.backup_mode
}

/// Why a pair cannot run, given what the file system says: the source is
/// blank or missing, the destination is blank, or neither the destination
/// nor its parent exists.
pub open spec fn missing_reason(pair: SyncPair, source_exists: bool, dest_exists: bool, parent_exists: bool) -> Option<Seq<char>> {
    if trimmed(pair.source@).len() == 0 || !source_exists {
        Some("dossier source introuvable ("@ + pair.source@ + ")"@)
    } else if trimmed(pair.destination@).len() == 0 {
        Some("destination non definie"@)
    } else if !dest_exists && !parent_exists {
        Some("dossier destination injoignable ("@ + pair.destination@ + ")"@)
    } else {
        None
    }
}

/// Why a pair cannot run (see `missing_reason`), given what the file system
/// answered: whether its source, its destination and the destination's
/// parent exist.
pub fn missing_folder(pair: &SyncPair, source_exists: bool, dest_exists: bool, parent_exists: bool) -> (r: Option<String>)
    ensures
        crate::outcome::opt_view(r) == missing_reason(*pair, source_exists, dest_exists, parent_exists),
{
    if is_blank(pair.source.as_str()) || !source_exists {
        let mut m = joined("dossier source introuvable (", pair.source.as_str());
        push_str(&mut m, ")");
        return Some(m);
    }
    if is_blank(pair.destination.as_str()) {
        return Some("destination non definie".to_string());
    }
    if !dest_exists && !parent_exists {
        let mut m = joined("dossier destination injoignable (", pair.destination.as_str());
        push_str(&mut m, ")");
        return Some(m);
    }
    None
}

/// The message of a pair disabled because a folder is missing.
pub open spec fn disabled_text(name: Seq<char>, reason: Seq<char>) -> Seq<char> {
    "Paire « "@ + name + " » desactivee : "@ + reason
}

/// The message of a pair disabled because a folder is missing.
pub fn disabled_message(name: &str, reason: &str) -> (r: String)
    ensures
        r@ == disabled_text(name@, reason@),
{
    let mut m = joined("Paire « ", name);
    push_str(&mut m, " » desactivee : ");
    push_str(&mut m, reason);
    m
}

/// Whether the end of a pass is notified on the desktop: both the settings
/// and the pair ask for it.
pub fn notifies_desktop(settings: &Settings, pair: &SyncPair) -> (r: bool)
    ensures
        r == (settings.notify_pc && pair.notify_pc),
{
    settings.notify_pc && pair.notify_pc
}

/// The body of the notification of a pass that could not be planned:
/// `<name> : <error>`.
pub fn error_notice(name: &str, error: &str) -> (r: String)
    ensures
        r@ == name@ + " : "@ + error@,
{
    let mut m = joined(name, " : ");
    push_str(&mut m, error);
    m
}

/// The counters a mirror pass starts from: nothing done yet, held back when
/// its plan's deletions are.
pub fn mirror_start(plan: &ExecPlan) -> (r: SyncOutcome)
    ensures
        r == (SyncOutcome { copied: 0, updated: 0, deleted: 0, errors: 0, aborted_safety: plan.aborted_safety }),
{
    SyncOutcome { copied: 0, updated: 0, deleted: 0, errors: 0, aborted_safety: plan.aborted_safety }
}

/// Counts the creation of a folder: an error, with its log line, when it
/// failed.
pub fn record_mkdir(out: &mut SyncOutcome, rel: &str, result: Result<(), String>) -> (l: Option<LogLine>)
    requires
        old(out).errors < u64::MAX,
    ensures
        match result {
            Ok(()) => *final(out) == *old(out) && l is None,
            Err(e) => {
                &&& *final(out) == (SyncOutcome { errors: (old(out).errors + 1) as u64, ..*old(out) })
                &&& l matches Some(x) && log_is(x, "error"@, "error"@, Some(rel@), "mkdir échec : "@ + e@)
            },
        },
{
    match result {
        Ok(()) => None,
        Err(e) => {
            out.errors = out.errors + 1;
            let m = joined("mkdir échec : ", e.as_str());
            Some(log_about("error", "error", rel, m.as_str()))
        },
    }
}

/// How copying one file ended (after its retry).
pub enum CopyResult {
    Done,
    /// The source file had disappeared.
    SourceMissing,
    /// Any other failure, with its error.
    Failed(String),
}

/// Counts one copy of a mirror pass and returns its log line: a new file
/// counts as copied, an existing one as updated (with the reason); a
/// vanished source is only logged; any other failure is an error.
pub fn record_copy(out: &mut SyncOutcome, op: &CopyOp, result: CopyResult) -> (l: LogLine)
    requires
        old(out).copied < u64::MAX,
        old(out).updated < u64::MAX,
        old(out).errors < u64::MAX,
    ensures
        match result {
            CopyResult::Done => if op.is_new {
                &&& *final(out) == (SyncOutcome { copied: (old(out).copied + 1) as u64, ..*old(out) })
                &&& log_is(l, "info"@, "copy"@, Some(op.rel@), "copié"@)
            } else {
                &&& *final(out) == (SyncOutcome { updated: (old(out).updated + 1) as u64, ..*old(out) })
                &&& log_is(l, "info"@, "update"@, Some(op.rel@), "mis à jour ("@ + reason_text(op.reason) + ")"@)
            },
            CopyResult::SourceMissing => {
                &&& *final(out) == *old(out)
                &&& log_is(l, "warn"@, "skip"@, Some(op.rel@), "ignoré (source introuvable)"@)
            },
            CopyResult::Failed(e) => {
                &&& *final(out) == (SyncOutcome { errors: (old(out).errors + 1) as u64, ..*old(out) })
                &&& log_is(l, "error"@, "error"@, Some(op.rel@), "copie échec : "@ + e@)
            },
        },
{
    match result {
        CopyResult::Done => {
            if op.is_new {
                out.copied = out.copied + 1;
                log_about("info", "copy", op.rel.as_str(), "copié")
            } else {
                out.updated = out.updated + 1;
                let mut m = joined("mis à jour (", reason_string(op.reason).as_str());
                push_str(&mut m, ")");
                log_about("info", "update", op.rel.as_str(), m.as_str())
            }
        },
        CopyResult::SourceMissing => log_about("warn", "skip", op.rel.as_str(), "ignoré (source introuvable)"),
        CopyResult::Failed(e) => {
            out.errors = out.errors + 1;
            let m = joined("copie échec : ", e.as_str());
            log_about("error", "error", op.rel.as_str(), m.as_str())
        },
    }
}

/// Counts one deletion of a mirror pass and returns its log line.
pub fn record_delete(out: &mut SyncOutcome, rel: &str, result: Result<(), String>) -> (l: LogLine)
    requires
        old(out).deleted < u64::MAX,
        old(out).errors < u64::MAX,
    ensures
        match result {
            Ok(()) => {
                &&& *final(out) == (SyncOutcome { deleted: (old(out).deleted + 1) as u64, ..*old(out) })
                &&& log_is(l, "info"@, "delete"@, Some(rel@), "supprimé"@)
            },
            Err(e) => {
                &&& *final(out) == (SyncOutcome { errors: (old(out).errors + 1) as u64, ..*old(out) })
                &&& log_is(l, "error"@, "error"@, Some(rel@), "suppression échec : "@ + e@)
            },
        },
{
    match result {
        Ok(()) => {
            out.deleted = out.deleted + 1;
            log_about("info", "delete", rel, "supprimé")
        },
        Err(e) => {
            out.errors = out.errors + 1;
            let m = joined("suppression échec : ", e.as_str());
            log_about("error", "error", rel, m.as_str())
        },
    }
}

/// Whether `v` lists the positions `0..n` in order.
pub open spec fn all_positions(v: Seq<usize>, n: nat) -> bool {
    v.len() == n && forall|i: int| 0 <= i < v.len() ==> v[i] == i
}

/// The positions `0..n`, in order.
fn positions(n: usize) -> (r: Vec<usize>)
    ensures
        all_positions(r@, n as nat),
{
    let mut r: Vec<usize> = Vec::new();
    for i in 0..n
        invariant
            r@.len() == i,
            forall|k: int| 0 <= k < i ==> r@[k] == k,
    {
        r.push(i);
    }
    r
}

/// The deletions a mirror pass carries out, as positions in its plan: none
/// when the plan is held back, else every one, in plan order.
pub fn deletions_to_run(plan: &ExecPlan) -> (r: Vec<usize>)
    ensures
        plan.aborted_safety ==> r@.len() == 0,
        !plan.aborted_safety ==> all_positions(r@, plan.deletes@.len()),
{
    if plan.aborted_safety {
        return Vec::new();
    }
    positions(plan.deletes.len())
}

/// The steps of a mirror pass, as positions in its plan.
pub struct PassSteps {
    /// Folders to create.
    pub create_dirs: Vec<usize>,
    /// Files to copy.
    pub copies: Vec<usize>,
    /// Entries to delete.
    pub deletes: Vec<usize>,
}

/// What a mirror pass carries out of its plan: nothing at all when the
/// safety threshold holds the plan back (the threshold blocks the whole
/// pass), else every folder, copy and deletion, each in plan order.
pub fn steps_to_run(plan: &ExecPlan) -> (r: PassSteps)
    ensures
        plan.aborted_safety ==> r.create_dirs@.len() == 0 && r.copies@.len() == 0 && r.deletes@.len() == 0,
        !plan.aborted_safety ==> {
            &&& all_positions(r.create_dirs@, plan.create_dirs@.len())
            &&& all_positions(r.copies@, plan.copies@.len())
            &&& all_positions(r.deletes@, plan.deletes@.len())
        },
{
    if plan.aborted_safety {
        return PassSteps { create_dirs: Vec::new(), copies: Vec::new(), deletes: Vec::new() };
    }
    PassSteps {
        create_dirs: positions(plan.create_dirs.len()),
        copies: positions(plan.copies.len()),
        deletes: deletions_to_run(plan),
    }
}

/// The log message of deletions held back by the safety threshold.
pub open spec fn held_deletions_text(plan: ExecPlan, threshold: u32) -> Seq<char> {
    "Suppressions RETENUES : "@ + decimal(plan.delete_pct as nat) + "% de la destination ("@ + decimal(
        plan.extra_entries as nat,
    ) + "/"@ + decimal(plan.dest_total as nat) + " entrées) serait supprimé, seuil = "@ + decimal(threshold as nat)
        + "%. Vérifie la source puis relance."@
}

/// The log line of deletions held back by the safety threshold.
pub fn held_deletions_log(plan: &ExecPlan, threshold: u32) -> (l: LogLine)
    ensures
        log_is(l, "warn"@, "skip"@, None, held_deletions_text(*plan, threshold)),
{
    let mut m = joined("Suppressions RETENUES : ", decimal_string(plan.delete_pct as u64).as_str());
    push_str(&mut m, "% de la destination (");
    push_str(&mut m, decimal_string(plan.extra_entries as u64).as_str());
    push_str(&mut m, "/");
    push_str(&mut m, decimal_string(plan.dest_total as u64).as_str());
    push_str(&mut m, " entrées) serait supprimé, seuil = ");
    push_str(&mut m, decimal_string(threshold as u64).as_str());
    push_str(&mut m, "%. Vérifie la source puis relance.");
    log_general("warn", "skip", m.as_str())
}

/// The alert shown when deletions are held back.
pub fn held_deletions_alert(plan: &ExecPlan, threshold: u32) -> (r: String)
    ensures
        r@ == "Suppressions retenues (seuil sécurité "@ + decimal(threshold as nat) + "% dépassé : "@ + decimal(
            plan.delete_pct as nat,
        ) + "%)"@,
{
    let mut m = joined("Suppressions retenues (seuil sécurité ", decimal_string(threshold as u64).as_str());
    push_str(&mut m, "% dépassé : ");
    push_str(&mut m, decimal_string(plan.delete_pct as u64).as_str());
    push_str(&mut m, "%)");
    m
}

/// The folder a backup pass writes into: `backup-<stamp>`.
pub fn backup_folder(stamp: &str) -> (r: String)
    ensures
        r@ == "backup-"@ + stamp@,
{
    joined("backup-", stamp)
}

/// Counts one entry of a backup pass: a folder counts only when it could not
/// be created; a file counts as copied, or as an error.
pub fn record_backup_entry(out: &mut SyncOutcome, rel: &str, is_dir: bool, result: Result<(), String>) -> (l: Option<LogLine>)
    requires
        old(out).copied < u64::MAX,
        old(out).errors < u64::MAX,
    ensures
        match result {
            Ok(()) => if is_dir {
                *final(out) == *old(out) && l is None
            } else {
                &&& *final(out) == (SyncOutcome { copied: (old(out).copied + 1) as u64, ..*old(out) })
                &&& l matches Some(x) && log_is(x, "info"@, "copy"@, Some(rel@), "sauvegardé"@)
            },
            Err(e) => {
                &&& *final(out) == (SyncOutcome { errors: (old(out).errors + 1) as u64, ..*old(out) })
                &&& l matches Some(x) && log_is(
                    x,
                    "error"@,
                    "error"@,
                    Some(rel@),
                    (if is_dir { "mkdir échec : "@ } else { "copie échec : "@ }) + e@,
                )
            },
        },
{
    match result {
        Ok(()) => {
            if is_dir {
                None
            } else {
                out.copied = out.copied + 1;
                Some(log_about("info", "copy", rel, "sauvegardé"))
            }
        },
        Err(e) => {
            out.errors = out.errors + 1;
            let m = if is_dir {
                joined("mkdir échec : ", e.as_str())
            } else {
                joined("copie échec : ", e.as_str())
            };
            Some(log_about("error", "error", rel, m.as_str()))
        },
    }
}

/// The closing log line of a backup pass:
/// `Sauvegarde créée : backup-<stamp> (<n> fichiers)`.
pub fn backup_done_log(stamp: &str, out: &SyncOutcome) -> (l: LogLine)
    ensures
        log_is(
            l,
            "info"@,
            "info"@,
            None,
            "Sauvegarde créée : backup-"@ + stamp@ + " ("@ + decimal(out.copied as nat) + " fichiers)"@,
        ),
{
    let mut m = joined("Sauvegarde créée : backup-", stamp);
    push_str(&mut m, " (");
    push_str(&mut m, decimal_string(out.copied).as_str());
    push_str(&mut m, " fichiers)");
    log_general("info", "info", m.as_str())
}


/// The name of the temporary file a copy goes through before it is renamed:
/// `.synctmp-<process>-<counter>`.
pub fn copy_temp_name(pid: u32, n: u64) -> (r: String)
    ensures
        r@ == ".synctmp-"@ + decimal(pid as nat) + "-"@ + decimal(n as nat),
{
    let mut m = joined(".synctmp-", decimal_string(pid as u64).as_str());
    push_str(&mut m, "-");
    push_str(&mut m, decimal_string(n).as_str());
    m
}

/// The name of the temporary archive a pass writes before it replaces the
/// archive: `.reflet-arc-<process>.tmp`.
pub fn archive_temp_name(pid: u32) -> (r: String)
    ensures
        r@ == ".reflet-arc-"@ + decimal(pid as nat) + ".tmp"@,
{
    let mut m = joined(".reflet-arc-", decimal_string(pid as u64).as_str());
    push_str(&mut m, ".tmp");
    m
}

/// Whether deletions go to the trash first (else they are permanent).
pub fn prefers_trash(behavior: &str) -> (r: bool)
    ensures
        r == (behavior@ == "trash"@),
{
    str_equal(behavior, "trash")
}

/// The positions of the enabled pairs, in order.
pub fn enabled_positions(pairs: &Vec<SyncPair>) -> (r: Vec<usize>)
    ensures
        forall|k: int| 0 <= k < r@.len() ==> #[trigger] r@[k] < pairs@.len() && pairs@[r@[k] as int].enabled,
        forall|i: int| 0 <= i < pairs@.len() && pairs@[i].enabled ==> #[trigger] r@.contains(i as usize),
        forall|a: int, b: int| 0 <= a < b < r@.len() ==> r@[a] < r@[b],
{
    let mut r: Vec<usize> = Vec::new();
    let n = pairs.len();
    for i in 0..n
        invariant
            n == pairs@.len(),
            forall|k: int| 0 <= k < r@.len() ==> #[trigger] r@[k] < i && pairs@[r@[k] as int].enabled,
            forall|j: int| 0 <= j < i && pairs@[j].enabled ==> #[trigger] r@.contains(j as usize),
            forall|a: int, b: int| 0 <= a < b < r@.len() ==> r@[a] < r@[b],
    {
        let ghost before = r@;
        if pairs[i].enabled {
            r.push(i);
            proof {
                assert forall|j: int| 0 <= j < i + 1 && pairs@[j].enabled implies #[trigger] r@.contains(j as usize) by {
                    crate::lists::lemma_push_contains(before, i, j as usize);
                }
            }
        }
    }
    r
}

/// Whether a link may be opened: only `http://` and `https://` ones.
pub open spec fn url_allowed_spec(url: Seq<char>) -> bool {
    crate::text::is_prefix("https://"@, url) || crate::text::is_prefix("http://"@, url)
}

/// Refuses a link that is not `http://` or `https://` (`URL invalide`).
pub fn check_url(url: &str) -> (r: Result<(), String>)
    ensures
        r is Ok <==> url_allowed_spec(url@),
        r matches Err(e) ==> e@ == "URL invalide"@,
{
    let v = crate::text::chars_of(url);
    let https = crate::text::chars_of("https://");
    let http = crate::text::chars_of("http://");
    if crate::text::chars_start_with(v.as_slice(), https.as_slice()) || crate::text::chars_start_with(
        v.as_slice(),
        http.as_slice(),
    ) {
        Ok(())
    } else {
        Err("URL invalide".to_string())
    }
}

} // verus!
