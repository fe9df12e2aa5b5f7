//! The decisions of an archive pass: when it is held back, what each file
//! attempt counts and logs, what leaves the archive, how the destination is
//! cleaned, and when an external archive is rebuilt.
use vstd::prelude::*;
use crate::text::{chars_of, decimal, decimal_string, push_str, str_equal};
use crate::archive::{ArchiveFile, ArchiveIndex, Change, removed_names};
use crate::outcome::{LogLine, SyncOutcome, joined, log_about, log_general, log_is};
use crate::plan::percent_of;
use crate::textmap::pairs_view;
use crate::scan::string_views;
use crate::order::{SortKey, KeyView, key_views, sort_by_keys, sorted_positions};
use crate::digest::{blake3_of, content_digest, hex_lower, hex_of, le_bytes, push_le_u64};

verus! {

/// How a pass on a built-in archive may start.
pub enum ArchiveStart {
    /// The archive exists but cannot be read: it is left as it is.
    Unreadable,
    /// Too large a share of the archive would disappear: the pass is held back.
    HeldBack { pct: u32, removed: usize, prev: usize },
    /// The pass goes on.
    Proceed,
}

/// How a pass on a built-in archive starts: an existing archive that cannot
/// be read is never replaced; otherwise the pass is held back when the names
/// gone from the source exceed the threshold's share of the archive.
pub open spec fn archive_start_spec(arc_exists: bool, idx: ArchiveIndex, files: Seq<ArchiveFile>, threshold: u32) -> ArchiveStart {
    let prev = idx.entries().keys().len();
    let removed = removed_names(idx, files).len();
    let pct = percent_of(removed as int, prev as int);
    if arc_exists && !idx.is_readable() {
        ArchiveStart::Unreadable
    } else if prev > 0 && threshold < 100 && pct > threshold {
        ArchiveStart::HeldBack { pct: pct as u32, removed: removed as usize, prev: prev as usize }
    } else {
        ArchiveStart::Proceed
    }
}

/// The number of archive names that no source file has any more.
fn removed_count(idx: &ArchiveIndex, files: &Vec<ArchiveFile>) -> (r: usize)
    requires
        idx.wf(),
    ensures
        r == removed_names(*idx, files@).len(),
        r <= idx.entries().keys().len(),
{
    let names = crate::archive::archive_removals(idx, files);
    proof {
        idx.entries().keys().lemma_filter_len(|k: Seq<char>| !crate::archive::has_rel(files@, k));
    }
    names.len()
}

/// How a pass on a built-in archive starts (see `archive_start_spec`).
pub fn archive_start(arc_exists: bool, idx: &ArchiveIndex, files: &Vec<ArchiveFile>, threshold: u32) -> (r: ArchiveStart)
    requires
        idx.wf(),
    ensures
        r == archive_start_spec(arc_exists, *idx, files@, threshold),
{
    if arc_exists && !idx.readable() {
        return ArchiveStart::Unreadable;
    }
    let prev = idx.len();
    let removed = removed_count(idx, files);
    if prev > 0 {
        let q: u128 = (removed as u128) * 100 / (prev as u128);
        assert(q <= 100) by (nonlinear_arith)
            requires
                removed <= prev,
                prev > 0,
                q == (removed as int) * 100 / (prev as int),
        ;
        let pct = q as u32;
        if threshold < 100 && pct > threshold {
            return ArchiveStart::HeldBack { pct, removed, prev };
        }
    }
    ArchiveStart::Proceed
}

/// The message for an archive that exists but cannot be read.
pub open spec fn unreadable_text() -> Seq<char> {
    "Archive existante illisible (verrouillée ou corrompue) — synchro annulée pour ne pas l'écraser."@
}

/// The message for an archive that exists but cannot be read.
pub fn unreadable_message() -> (r: String)
    ensures
        r@ == unreadable_text(),
{
    "Archive existante illisible (verrouillée ou corrompue) — synchro annulée pour ne pas l'écraser.".to_string()
}

/// The message for an archive pass held back.
pub open spec fn archive_held_text(pct: nat, removed: nat, prev: nat, threshold: nat) -> Seq<char> {
    "Sauvegarde RETENUE : "@ + decimal(pct) + "% du contenu de l'archive ("@ + decimal(removed) + "/"@
        + decimal(prev) + ") disparaîtrait, seuil "@ + decimal(threshold)
        + "%. Vérifie la source puis relance."@
}

/// The message for an archive pass held back.
pub fn archive_held_message(pct: u32, removed: usize, prev: usize, threshold: u32) -> (r: String)
    ensures
        r@ == archive_held_text(pct as nat, removed as nat, prev as nat, threshold as nat),
{
    let mut r = joined("Sauvegarde RETENUE : ", decimal_string(pct as u64).as_str());
    push_str(&mut r, "% du contenu de l'archive (");
    push_str(&mut r, decimal_string(removed as u64).as_str());
    push_str(&mut r, "/");
    push_str(&mut r, decimal_string(prev as u64).as_str());
    push_str(&mut r, ") disparaîtrait, seuil ");
    push_str(&mut r, decimal_string(threshold as u64).as_str());
    push_str(&mut r, "%. Vérifie la source puis relance.");
    r
}

/// Whether the entry already in the archive is tried first for a file: only
/// when the file is unchanged.
pub fn carry_first(change: &Change) -> (r: bool)
    ensures
        r == (*change is Unchanged),
{
    match change {
        Change::Unchanged => true,
        _ => false,
    }
}

/// What happened to one source file during an archive pass.
pub enum FileAttempt {
    /// The unchanged entry was carried over from the previous archive.
    Carried,
    /// The file was read and written into the archive.
    Written,
    /// Writing failed; whether the previous version could be carried over.
    WriteFailed { carried: bool },
    /// The file had disappeared.
    SourceMissing,
    /// The file could not be read; whether the previous version could be
    /// carried over, and the error.
    SourceUnreadable { carried: bool, error: String },
}

/// What one file attempt adds to the counters: a written file counts as
/// updated when it had changed and as copied otherwise; a failed write, or an
/// unreadable file with no previous version, counts as an error.
pub open spec fn file_counted(old: SyncOutcome, change: Change, attempt: FileAttempt) -> SyncOutcome {
    match attempt {
        FileAttempt::Written => if change is Changed {
            SyncOutcome { updated: (old.updated + 1) as u64, ..old }
        } else {
            SyncOutcome { copied: (old.copied + 1) as u64, ..old }
        },
        FileAttempt::WriteFailed { .. } => SyncOutcome { errors: (old.errors + 1) as u64, ..old },
        FileAttempt::SourceUnreadable { carried: false, .. } => SyncOutcome { errors: (old.errors + 1) as u64, ..old },
        _ => old,
    }
}

/// Whether the file keeps a version in the new archive (its time is then
/// recorded).
pub open spec fn file_kept(attempt: FileAttempt) -> bool {
    match attempt {
        FileAttempt::Carried => true,
        FileAttempt::Written => true,
        FileAttempt::WriteFailed { carried } => carried,
        FileAttempt::SourceMissing => false,
        FileAttempt::SourceUnreadable { carried, .. } => carried,
    }
}

/// The log line of one file attempt, if any.
pub open spec fn file_logged(l: Option<LogLine>, rel: Seq<char>, change: Change, attempt: FileAttempt) -> bool {
    match attempt {
        FileAttempt::Carried => l is None,
        FileAttempt::Written => l matches Some(x) && if change is Changed {
            log_is(x, "info"@, "update"@, Some(rel), "mis à jour dans l'archive"@)
        } else {
            log_is(x, "info"@, "copy"@, Some(rel), "ajouté à l'archive"@)
        },
        FileAttempt::WriteFailed { carried } => l matches Some(x) && if carried {
            log_is(x, "error"@, "error"@, Some(rel), "écriture échec — version précédente conservée"@)
        } else {
            log_is(x, "error"@, "error"@, Some(rel), "écriture dans l'archive échec"@)
        },
        FileAttempt::SourceMissing => l matches Some(x) && log_is(
            x,
            "warn"@,
            "skip"@,
            Some(rel),
            "ignoré (source introuvable)"@,
        ),
        FileAttempt::SourceUnreadable { carried, error } => l matches Some(x) && if carried {
            log_is(x, "warn"@, "skip"@, Some(rel), "source illisible — version précédente conservée"@)
        } else {
            log_is(x, "error"@, "error"@, Some(rel), "lecture source échec : "@ + error@)
        },
    }
}

/// Counts one file attempt; returns whether the file keeps a version in the
/// new archive, and the log line to write.
pub fn record_file(out: &mut SyncOutcome, change: &Change, attempt: FileAttempt, rel: &str) -> (r: (bool, Option<LogLine>))
    requires
        old(out).copied < u64::MAX,
        old(out).updated < u64::MAX,
        old(out).errors < u64::MAX,
    ensures
        *final(out) == file_counted(*old(out), *change, attempt),
        r.0 == file_kept(attempt),
        file_logged(r.1, rel@, *change, attempt),
{
    match attempt {
        FileAttempt::Carried => (true, None),
        FileAttempt::Written => {
            match change {
                Change::Changed => {
                    out.updated = out.updated + 1;
                    (true, Some(log_about("info", "update", rel, "mis à jour dans l'archive")))
                },
                _ => {
                    out.copied = out.copied + 1;
                    (true, Some(log_about("info", "copy", rel, "ajouté à l'archive")))
                },
            }
        },
        FileAttempt::WriteFailed { carried } => {
            out.errors = out.errors + 1;
            if carried {
                (true, Some(log_about("error", "error", rel, "écriture échec — version précédente conservée")))
            } else {
                (false, Some(log_about("error", "error", rel, "écriture dans l'archive échec")))
            }
        },
        FileAttempt::SourceMissing => (false, Some(log_about("warn", "skip", rel, "ignoré (source introuvable)"))),
        FileAttempt::SourceUnreadable { carried, error } => {
            if carried {
                (true, Some(log_about("warn", "skip", rel, "source illisible — version précédente conservée")))
            } else {
                out.errors = out.errors + 1;
                let m = joined("lecture source échec : ", error.as_str());
                (false, Some(log_about("error", "error", rel, m.as_str())))
            }
        },
    }
}

/// Counts the names that leave the archive (one deletion each) and returns
/// their log lines, in name order.
pub fn record_removals(out: &mut SyncOutcome, idx: &ArchiveIndex, files: &Vec<ArchiveFile>) -> (logs: Vec<LogLine>)
    requires
        idx.wf(),
        old(out).deleted + idx.entries().keys().len() <= u64::MAX,
    ensures
        *final(out) == (SyncOutcome { deleted: (old(out).deleted + removed_names(*idx, files@).len()) as u64, ..*old(out) }),
        logs@.len() == removed_names(*idx, files@).len(),
        forall|k: int|
            0 <= k < logs@.len() ==> log_is(
                #[trigger] logs@[k],
                "info"@,
                "delete"@,
                Some(removed_names(*idx, files@)[k]),
                "retiré de l'archive"@,
            ),
{
    let names = crate::archive::archive_removals(idx, files);
    proof {
        idx.entries().keys().lemma_filter_len(|k: Seq<char>| !crate::archive::has_rel(files@, k));
    }
    let ghost gone = removed_names(*idx, files@);
    let mut logs: Vec<LogLine> = Vec::new();
    let n = names.len();
    for i in 0..n
        invariant
            n == names@.len(),
            n == gone.len(),
            string_views(names@) == gone,
            logs@.len() == i,
            forall|k: int|
                0 <= k < i ==> log_is(#[trigger] logs@[k], "info"@, "delete"@, Some(gone[k]), "retiré de l'archive"@),
    {
        assert(names@[i as int]@ == gone[i as int]);
        logs.push(log_about("info", "delete", names[i].as_str(), "retiré de l'archive"));
    }
    out.deleted = out.deleted + n as u64;
    logs
}

/// Counts a failure of the pass as a whole (creating the destination or the
/// archive, finishing or replacing it, running an external tool) and returns
/// its log line: `<what><error>`.
pub fn record_failure(out: &mut SyncOutcome, what: &str, error: &str) -> (l: LogLine)
    requires
        old(out).errors < u64::MAX,
    ensures
        *final(out) == (SyncOutcome { errors: (old(out).errors + 1) as u64, ..*old(out) }),
        log_is(l, "error"@, "error"@, None, what@ + error@),
{
    out.errors = out.errors + 1;
    let m = joined(what, error);
    log_general("error", "error", m.as_str())
}

/// What an archive pass records as the state of the new archive: the
/// modification time of each file kept, as a JSON object.
pub uninterp spec fn mtimes_json_text(list: Seq<(Seq<char>, i64)>) -> Option<Seq<char>>;

/// `serde_json::to_string` of the map from paths to times built from the
/// list (a later binding of a path replacing an earlier one); none when
/// serialisation fails. The result depends on the list alone.
#[verifier::external_body]
fn mtimes_to_json(list: &Vec<(String, i64)>) -> (r: Option<String>)
    ensures
        crate::outcome::opt_view(r) == mtimes_json_text(pairs_view(list@)),
{
    let m: std::collections::BTreeMap<&str, i64> = list.iter().map(|p| (p.0.as_str(), p.1)).collect();
    serde_json::to_string(&m).ok()
}

/// The text of the internal state entry of a new archive.
pub fn state_json(kept: &Vec<(String, i64)>) -> (r: Option<String>)
    ensures
        crate::outcome::opt_view(r) == mtimes_json_text(pairs_view(kept@)),
{
    mtimes_to_json(kept)
}

/// Whether the destination is cleaned after a built-in archive pass: only
/// when everything was archived without error.
pub fn cleanup_allowed(out: &SyncOutcome) -> (r: bool)
    ensures
        r == (out.errors == 0),
{
    out.errors == 0
}

/// The log line when cleaning is skipped because of errors.
pub fn cleanup_skipped_log() -> (l: LogLine)
    ensures
        log_is(l, "warn"@, "skip"@, None, "nettoyage destination ignoré (des fichiers ont échoué) — copies existantes conservées"@),
{
    log_general("warn", "skip", "nettoyage destination ignoré (des fichiers ont échoué) — copies existantes conservées")
}

/// Positions of the destination entries other than the archive.
pub open spec fn other_positions(names: Seq<Seq<char>>, keep: Seq<char>) -> Seq<int>
    decreases names.len(),
{
    if names.len() == 0 {
        seq![]
    } else {
        let p = other_positions(names.drop_last(), keep);
        if names.last() != keep {
            p.push(names.len() - 1)
        } else {
            p
        }
    }
}

/// What cleaning the destination of an archive does.
pub enum CleanupDecision {
    /// The destination holds nothing but the archive.
    Nothing,
    /// Too large a share of the destination would go: nothing is deleted.
    HeldBack { pct: u32, count: usize, total: usize },
    /// The entries at these positions are deleted.
    Delete(Vec<usize>),
}

/// What cleaning a destination with entries `names` does, the archive being
/// `keep`: every other entry goes, unless their share of the entries (of at
/// least one) exceeds a threshold below 100.
pub open spec fn cleanup_spec(names: Seq<Seq<char>>, keep: Seq<char>, threshold: u32, r: CleanupDecision) -> bool {
    let p = other_positions(names, keep);
    let total: int = if names.len() > 1 { names.len() as int } else { 1 };
    let pct = (p.len() as int) * 100 / total;
    if p.len() == 0 {
        r is Nothing
    } else if threshold < 100 && pct > threshold {
        r == CleanupDecision::HeldBack { pct: pct as u32, count: p.len() as usize, total: total as usize }
    } else {
        r matches CleanupDecision::Delete(v) && v@.len() == p.len() && forall|k: int|
            0 <= k < p.len() ==> #[trigger] v@[k] == p[k]
    }
}

/// Whether cleaning a destination with entries `names` is held back: some
/// entries other than the archive `keep`, and their share of the entries (of
/// at least one) exceeds a threshold below 100.
pub open spec fn cleanup_holds(names: Seq<Seq<char>>, keep: Seq<char>, threshold: u32) -> bool {
    let p = other_positions(names, keep);
    let total: int = if names.len() > 1 { names.len() as int } else { 1 };
    p.len() > 0 && threshold < 100 && (p.len() as int) * 100 / total > threshold
}

/// The entries of a destination once the archive `keep` is written into it.
pub open spec fn names_after(dest: Seq<Seq<char>>, keep: Seq<char>) -> Seq<Seq<char>> {
    if dest.contains(keep) {
        dest
    } else {
        dest.push(keep)
    }
}

/// The entries of a destination once the archive `keep` is written into it.
pub fn names_after_write(dest: &Vec<String>, keep: &str) -> (r: Vec<String>)
    ensures
        string_views(r@) == names_after(string_views(dest@), keep@),
{
    let ghost views = string_views(dest@);
    let n = dest.len();
    let mut found = false;
    for i in 0..n
        invariant
            n == dest@.len(),
            views == string_views(dest@),
            found == exists|j: int| 0 <= j < i && views[j] == keep@,
    {
        assert(views[i as int] == dest@[i as int]@);
        if str_equal(dest[i].as_str(), keep) {
            found = true;
        }
        proof {
            if views[i as int] == keep@ {
                assert(exists|j: int| 0 <= j < i + 1 && views[j] == keep@);
            }
        }
    }
    let mut r = crate::config::copy_strings(dest);
    proof {
        if found {
            let j = choose|j: int| 0 <= j < n && views[j] == keep@;
            assert(views.contains(keep@));
        } else {
            assert(!views.contains(keep@));
        }
    }
    if !found {
        let k = keep.to_string();
        r.push(k);
        assert(string_views(r@) =~= views.push(keep@));
    }
    r
}

/// No entry other than the archive: nothing to clean.
pub proof fn lemma_only_archive_nothing_to_clean(names: Seq<Seq<char>>, keep: Seq<char>)
    requires
        forall|i: int| 0 <= i < names.len() ==> names[i] == keep,
    ensures
        other_positions(names, keep).len() == 0,
    decreases names.len(),
{
    if names.len() > 0 {
        lemma_only_archive_nothing_to_clean(names.drop_last(), keep);
    }
}

/// What cleaning a destination does (see `cleanup_spec`).
pub fn cleanup_decision(names: &Vec<String>, keep: &str, threshold: u32) -> (r: CleanupDecision)
    ensures
        cleanup_spec(string_views(names@), keep@, threshold, r),
        (r is HeldBack) == cleanup_holds(string_views(names@), keep@, threshold),
{
    let ghost views = string_views(names@);
    let n = names.len();
    let mut pos: Vec<usize> = Vec::new();
    for i in 0..n
        invariant
            n == names@.len(),
            views == string_views(names@),
            pos@.len() == other_positions(views.take(i as int), keep@).len(),
            forall|k: int| 0 <= k < pos@.len() ==> #[trigger] pos@[k] == other_positions(views.take(i as int), keep@)[k],
            forall|k: int| 0 <= k < pos@.len() ==> pos@[k] < i,
    {
        let ghost before = pos@;
        proof {
            assert(views.take(i + 1).drop_last() =~= views.take(i as int));
            assert(views.take(i + 1).last() == names@[i as int]@);
        }
        if !str_equal(names[i].as_str(), keep) {
            pos.push(i);
            proof {
                assert forall|k: int| 0 <= k < pos@.len() implies #[trigger] pos@[k] == other_positions(
                    views.take(i + 1),
                    keep@,
                )[k] by {
                    if k < before.len() {
                        assert(pos@[k] == before[k]);
                    }
                }
            }
        }
    }
    proof {
        assert(views.take(n as int) =~= views);
    }
    let count = pos.len();
    if count == 0 {
        return CleanupDecision::Nothing;
    }
    let total: usize = if n > 1 { n } else { 1 };
    assert(count <= total) by {
        lemma_other_positions_len(views, keep@);
    }
    let q: u128 = (count as u128) * 100 / (total as u128);
    assert(q <= 100) by (nonlinear_arith)
        requires
            count <= total,
            total > 0,
            q == (count as int) * 100 / (total as int),
    ;
    let pct = q as u32;
    if threshold < 100 && pct > threshold {
        CleanupDecision::HeldBack { pct, count, total }
    } else {
        CleanupDecision::Delete(pos)
    }
}

/// There are no more other positions than entries.
proof fn lemma_other_positions_len(names: Seq<Seq<char>>, keep: Seq<char>)
    ensures
        other_positions(names, keep).len() <= names.len(),
    decreases names.len(),
{
    if names.len() > 0 {
        lemma_other_positions_len(names.drop_last(), keep);
    }
}

/// The message for a cleaning held back.
pub open spec fn cleanup_held_text(pct: nat, count: nat, total: nat, threshold: nat) -> Seq<char> {
    "Nettoyage destination RETENU : "@ + decimal(pct) + "% des fichiers ("@ + decimal(count) + "/"@
        + decimal(total) + ") seraient supprimés, seuil "@ + decimal(threshold)
        + "%. Augmente le seuil (Réglages) ou vide le dossier toi-même si c'est voulu."@
}

/// The message for a cleaning held back.
pub fn cleanup_held_message(pct: u32, count: usize, total: usize, threshold: u32) -> (r: String)
    ensures
        r@ == cleanup_held_text(pct as nat, count as nat, total as nat, threshold as nat),
{
    let mut r = joined("Nettoyage destination RETENU : ", decimal_string(pct as u64).as_str());
    push_str(&mut r, "% des fichiers (");
    push_str(&mut r, decimal_string(count as u64).as_str());
    push_str(&mut r, "/");
    push_str(&mut r, decimal_string(total as u64).as_str());
    push_str(&mut r, ") seraient supprimés, seuil ");
    push_str(&mut r, decimal_string(threshold as u64).as_str());
    push_str(&mut r, "%. Augmente le seuil (Réglages) ou vide le dossier toi-même si c'est voulu.");
    r
}

/// Counts the deletion of a destination entry: one deletion, or one error
/// with its log line.
pub fn record_cleanup(out: &mut SyncOutcome, path: &str, result: Result<(), String>) -> (l: Option<LogLine>)
    requires
        old(out).deleted < u64::MAX,
        old(out).errors < u64::MAX,
    ensures
        match result {
            Ok(()) => *final(out) == (SyncOutcome { deleted: (old(out).deleted + 1) as u64, ..*old(out) })
                && l is None,
            Err(e) => {
                &&& *final(out) == (SyncOutcome { errors: (old(out).errors + 1) as u64, ..*old(out) })
                &&& l matches Some(x) && log_is(x, "error"@, "error"@, Some(path@), "nettoyage destination échec : "@ + e@)
            },
        },
{
    match result {
        Ok(()) => {
            out.deleted = out.deleted + 1;
            None
        },
        Err(e) => {
            out.errors = out.errors + 1;
            let m = joined("nettoyage destination échec : ", e.as_str());
            Some(log_about("error", "error", path, m.as_str()))
        },
    }
}

/// Counts a destination that cannot be listed for cleaning: one error, and a
/// warning.
pub fn record_unlistable_destination(out: &mut SyncOutcome, error: &str) -> (l: LogLine)
    requires
        old(out).errors < u64::MAX,
    ensures
        *final(out) == (SyncOutcome { errors: (old(out).errors + 1) as u64, ..*old(out) }),
        log_is(l, "warn"@, "skip"@, None, "nettoyage destination ignoré : lecture impossible ("@ + error@ + ")"@),
{
    out.errors = out.errors + 1;
    let mut m = joined("nettoyage destination ignoré : lecture impossible (", error);
    push_str(&mut m, ")");
    log_general("warn", "skip", m.as_str())
}

/// How a pass on an external archive format starts.
pub enum ExternalStart {
    /// The source is empty while an archive exists: nothing is replaced.
    HeldBack,
    /// The source is as it was at the last build: the archive is kept.
    UpToDate,
    /// The archive is rebuilt.
    Rebuild,
}

/// How a pass on an external archive starts: held back when the source is
/// empty but an archive exists; up to date when the archive exists and the
/// signature recorded at its last build is the current one.
pub open spec fn external_start_spec(file_count: nat, arc_exists: bool, saved: Option<Seq<char>>, sig: Seq<char>) -> ExternalStart {
    if file_count == 0 && arc_exists {
        ExternalStart::HeldBack
    } else if arc_exists && saved == Some(sig) {
        ExternalStart::UpToDate
    } else {
        ExternalStart::Rebuild
    }
}

/// How a pass on an external archive starts (see `external_start_spec`).
pub fn external_start(file_count: usize, arc_exists: bool, saved: &Option<String>, sig: &str) -> (r: ExternalStart)
    ensures
        r == external_start_spec(file_count as nat, arc_exists, crate::outcome::opt_view(*saved), sig@),
{
    if file_count == 0 && arc_exists {
        return ExternalStart::HeldBack;
    }
    if arc_exists {
        match saved {
            Some(s) => {
                if str_equal(s.as_str(), sig) {
                    return ExternalStart::UpToDate;
                }
            },
            None => {},
        }
    }
    ExternalStart::Rebuild
}

/// The message for an external pass held back by an empty source.
pub fn empty_source_message() -> (r: String)
    ensures
        r@ == "Source vide alors qu'une archive existe — sauvegarde retenue (vérifie la source)."@,
{
    "Source vide alors qu'une archive existe — sauvegarde retenue (vérifie la source).".to_string()
}

/// The log line of an external archive found up to date.
pub fn up_to_date_log() -> (l: LogLine)
    ensures
        log_is(l, "info"@, "skip"@, None, "archive externe déjà à jour (aucun changement détecté) — reconstruction ignorée"@),
{
    log_general("info", "skip", "archive externe déjà à jour (aucun changement détecté) — reconstruction ignorée")
}

/// Counts a rebuilt external archive (every file counts as copied) and
/// returns its log line: `archive <method> recréée (<n> fichiers)`.
pub fn record_rebuilt(out: &mut SyncOutcome, method: &str, file_count: usize) -> (l: LogLine)
    ensures
        *final(out) == (SyncOutcome { copied: file_count as u64, ..*old(out) }),
        log_is(l, "info"@, "copy"@, None, "archive "@ + method@ + " recréée ("@ + decimal(file_count as nat) + " fichiers)"@),
{
    out.copied = file_count as u64;
    let mut m = joined("archive ", method);
    push_str(&mut m, " recréée (");
    push_str(&mut m, decimal_string(file_count as u64).as_str());
    push_str(&mut m, " fichiers)");
    log_general("info", "copy", m.as_str())
}

/// Sort keys ordering archive files by path.
pub open spec fn file_keys(files: Seq<ArchiveFile>) -> Seq<KeyView> {
    files.map_values(|f: ArchiveFile| (0u64, f.rel@))
}

/// The bytes hashed for the signature of some files: for each, its path in
/// UTF-8, its size and its modification time as eight little-endian bytes
/// each, and a line feed.
pub open spec fn signature_bytes(files: Seq<ArchiveFile>) -> Seq<u8>
    decreases files.len(),
{
    if files.len() == 0 {
        seq![]
    } else {
        let f = files.last();
        signature_bytes(files.drop_last()) + vstd::utf8::encode_utf8(f.rel@) + le_bytes(f.size as nat, 8) + le_bytes(
            (f.mtime as u64) as nat,
            8,
        ) + seq![10u8]
    }
}

/// The signature of a set of source files: BLAKE3 of `signature_bytes` of
/// the files sorted by path, in lower-case hexadecimal. Two builds of the
/// same sizes and times under the same paths have the same signature.
pub open spec fn ext_signature_spec(files: Seq<ArchiveFile>) -> Seq<char> {
    hex_of(blake3_of(signature_bytes(sorted_positions(file_keys(files)).map_values(|i: usize| files[i as int]))))
}

/// The signature of the source files of an external archive (see
/// `ext_signature_spec`).
pub fn ext_signature(files: &Vec<ArchiveFile>) -> (r: String)
    ensures
        r@ == ext_signature_spec(files@),
{
    let n = files.len();
    let mut keys: Vec<SortKey> = Vec::new();
    for i in 0..n
        invariant
            n == files@.len(),
            keys@.len() == i,
            forall|k: int| 0 <= k < i ==> (#[trigger] keys@[k]).rank == 0 && keys@[k].text@ == files@[k].rel@,
    {
        keys.push(SortKey { rank: 0, text: chars_of(files[i].rel.as_str()) });
    }
    assert(key_views(keys@) =~= file_keys(files@));
    let order = sort_by_keys(&keys);
    let ghost sorted = order@.map_values(|i: usize| files@[i as int]);
    let mut buf: Vec<u8> = Vec::new();
    let m = order.len();
    for t in 0..m
        invariant
            m == order@.len(),
            m == n,
            n == files@.len(),
            forall|u: int| 0 <= u < m ==> #[trigger] order@[u] < n,
            sorted == order@.map_values(|i: usize| files@[i as int]),
            buf@ == signature_bytes(sorted.take(t as int)),
    {
        let f = &files[order[t]];
        let bytes = f.rel.as_str().as_bytes();
        let ghost start = buf@;
        let k = bytes.len();
        for b in 0..k
            invariant
                k == bytes@.len(),
                buf@ == start + bytes@.take(b as int),
        {
            buf.push(bytes[b]);
            assert(bytes@.take(b + 1) =~= bytes@.take(b as int).push(bytes@[b as int]));
        }
        assert(bytes@.take(k as int) =~= bytes@);
        push_le_u64(&mut buf, f.size);
        push_le_u64(&mut buf, f.mtime as u64);
        buf.push(10u8);
        proof {
            assert(sorted.take(t + 1).drop_last() =~= sorted.take(t as int));
            assert(sorted.take(t + 1).last() == files@[order@[t as int] as int]);
            assert(buf@ =~= signature_bytes(sorted.take(t + 1)));
        }
    }
    assert(sorted.take(m as int) =~= sorted);
    let digest = content_digest(buf.as_slice());
    hex_lower(&digest)
}


/// The positions other than the archive are exactly the entries that are not
/// the archive, in order.
proof fn lemma_other_positions(names: Seq<Seq<char>>, keep: Seq<char>)
    ensures
        forall|k: int|
            0 <= k < other_positions(names, keep).len() ==> 0 <= #[trigger] other_positions(names, keep)[k]
                < names.len() && names[other_positions(names, keep)[k]] != keep,
        forall|i: int| 0 <= i < names.len() && names[i] != keep ==> #[trigger] other_positions(names, keep).contains(i),
    decreases names.len(),
{
    if names.len() > 0 {
        let rest = names.drop_last();
        lemma_other_positions(rest, keep);
        let p = other_positions(rest, keep);
        assert forall|k: int| 0 <= k < p.len() implies #[trigger] p[k] < rest.len() && names[p[k]] == rest[p[k]] by {}
        if names.last() != keep {
            assert(other_positions(names, keep) == p.push(names.len() - 1));
            assert forall|i: int| 0 <= i < names.len() && names[i] != keep implies #[trigger] other_positions(
                names,
                keep,
            ).contains(i) by {
                if i < names.len() - 1 {
                    assert(rest[i] == names[i]);
                    assert(p.contains(i));
                    crate::lists::lemma_push_contains(p, names.len() - 1, i);
                } else {
                    assert(p.push(names.len() - 1)[p.len() as int] == i);
                }
            }
        } else {
            assert forall|i: int| 0 <= i < names.len() && names[i] != keep implies #[trigger] other_positions(
                names,
                keep,
            ).contains(i) by {
                assert(i < names.len() - 1);
                assert(rest[i] == names[i]);
            }
        }
    }
}

/// Cleaning a destination never deletes the archive, and deletes every
/// other entry unless it holds back or has nothing to do.
pub proof fn lemma_cleanup_keeps_archive(names: Seq<Seq<char>>, keep: Seq<char>, threshold: u32, r: CleanupDecision)
    requires
        cleanup_spec(names, keep, threshold, r),
    ensures
        r matches CleanupDecision::Delete(v) ==> forall|k: int|
            0 <= k < v@.len() ==> (#[trigger] v@[k]) < names.len() && names[v@[k] as int] != keep,
        r matches CleanupDecision::Delete(v) ==> forall|i: int|
            0 <= i < names.len() && names[i] != keep ==> #[trigger] v@.contains(i as usize),
        r is Nothing ==> forall|i: int| 0 <= i < names.len() ==> names[i] == keep,
        threshold >= 100 ==> !(r is HeldBack),
{
    lemma_other_positions(names, keep);
    let p = other_positions(names, keep);
    match r {
        CleanupDecision::Delete(v) => {
            assert forall|k: int| 0 <= k < v@.len() implies (#[trigger] v@[k]) < names.len() && names[v@[k] as int]
                != keep by {
                assert(v@[k] == p[k]);
            }
            assert forall|i: int| 0 <= i < names.len() && names[i] != keep implies #[trigger] v@.contains(i as usize) by {
                assert(p.contains(i));
                let k = choose|k: int| 0 <= k < p.len() && p[k] == i;
                assert(v@[k] == p[k]);
            }
        },
        CleanupDecision::Nothing => {
            assert forall|i: int| 0 <= i < names.len() implies names[i] == keep by {
                if names[i] != keep {
                    assert(p.contains(i));
                }
            }
        },
        _ => {},
    }
}


/// A held-back outcome: the counters as they were, marked held back.
pub open spec fn held(out: SyncOutcome) -> SyncOutcome {
    SyncOutcome { aborted_safety: true, ..out }
}

/// Whether `r` reports a hold: a log line at `level` with `action` and the
/// alert message, both `text`.
pub open spec fn hold_reported(r: Option<(LogLine, String)>, text: Seq<char>, level: Seq<char>, action: Seq<char>) -> bool {
    match r {
        Some((l, m)) => m@ == text && log_is(l, level, action, None, text),
        None => false,
    }
}

/// Records how a built-in archive pass starts: when it cannot go on, the
/// pass is marked held back and the log line and alert message are returned
/// (an error for an unreadable archive, a warning for a held-back pass).
pub fn record_start(out: &mut SyncOutcome, start: &ArchiveStart, threshold: u32) -> (r: Option<(LogLine, String)>)
    ensures
        match *start {
            ArchiveStart::Unreadable => *final(out) == held(*old(out)) && hold_reported(
                r,
                unreadable_text(),
                "error"@,
                "error"@,
            ),
            ArchiveStart::HeldBack { pct, removed, prev } => *final(out) == held(*old(out)) && hold_reported(
                r,
                archive_held_text(pct as nat, removed as nat, prev as nat, threshold as nat),
                "warn"@,
                "skip"@,
            ),
            ArchiveStart::Proceed => *final(out) == *old(out) && r is None,
        },
{
    match start {
        ArchiveStart::Unreadable => {
            out.aborted_safety = true;
            let m = unreadable_message();
            let l = log_general("error", "error", m.as_str());
            Some((l, m))
        },
        ArchiveStart::HeldBack { pct, removed, prev } => {
            out.aborted_safety = true;
            let m = archive_held_message(*pct, *removed, *prev, threshold);
            let l = log_general("warn", "skip", m.as_str());
            Some((l, m))
        },
        ArchiveStart::Proceed => None,
    }
}

/// Records how an external archive pass starts: held back by an empty
/// source, the pass is marked held back and the warning and alert message
/// are returned; otherwise nothing changes.
pub fn record_external_start(out: &mut SyncOutcome, start: &ExternalStart) -> (r: Option<(LogLine, String)>)
    ensures
        *start is HeldBack ==> *final(out) == held(*old(out)) && hold_reported(
            r,
            "Source vide alors qu'une archive existe — sauvegarde retenue (vérifie la source)."@,
            "warn"@,
            "skip"@,
        ),
        !(*start is HeldBack) ==> *final(out) == *old(out) && r is None,
{
    match start {
        ExternalStart::HeldBack => {
            out.aborted_safety = true;
            let m = empty_source_message();
            let l = log_general("warn", "skip", m.as_str());
            Some((l, m))
        },
        _ => None,
    }
}

/// Records a cleaning decision that holds back: the pass is marked held back
/// and the warning and alert message are returned; other decisions change
/// nothing here.
pub fn record_cleanup_hold(out: &mut SyncOutcome, decision: &CleanupDecision, threshold: u32) -> (r: Option<(LogLine, String)>)
    ensures
        match *decision {
            CleanupDecision::HeldBack { pct, count, total } => *final(out) == held(*old(out)) && hold_reported(
                r,
                cleanup_held_text(pct as nat, count as nat, total as nat, threshold as nat),
                "warn"@,
                "skip"@,
            ),
            _ => *final(out) == *old(out) && r is None,
        },
{
    match decision {
        CleanupDecision::HeldBack { pct, count, total } => {
            out.aborted_safety = true;
            let m = cleanup_held_message(*pct, *count, *total, threshold);
            let l = log_general("warn", "skip", m.as_str());
            Some((l, m))
        },
        _ => None,
    }
}


/// The next thing to try for a source file during an archive pass.
pub enum FileStep {
    /// Copy the entry of the previous archive.
    Carry,
    /// Read the source file and write it into the archive.
    Write,
    /// Writing failed: copy the entry of the previous archive instead.
    CarryAfterFailedWrite,
    /// The source could not be read (with this error): copy the entry of the
    /// previous archive instead.
    CarryAfterUnreadable { error: String },
}

/// What happened when a step was tried.
pub enum StepEvent {
    /// Copying the previous entry succeeded or not.
    Carried(bool),
    /// The file was written.
    Written,
    /// Writing the file failed.
    WriteFailed,
    /// The source file had disappeared.
    SourceMissing,
    /// The source file could not be read, with this error.
    SourceUnreadable(String),
}

/// The first step for a file: the previous entry for an unchanged file,
/// else writing it.
pub fn first_step(change: &Change) -> (r: FileStep)
    ensures
        if *change is Unchanged { r is Carry } else { r is Write },
{
    if carry_first(change) {
        FileStep::Carry
    } else {
        FileStep::Write
    }
}

/// What follows a step and what happened: the attempt's outcome, or the
/// next step. A failed carry of an unchanged file leads to writing it; a
/// failed write or an unreadable source leads to carrying the previous
/// entry, whose success is then recorded. An event that does not belong to
/// the step leaves the step as it is.
pub open spec fn after_step_spec(step: FileStep, event: StepEvent) -> Result<FileAttempt, FileStep> {
    match (step, event) {
        (FileStep::Carry, StepEvent::Carried(true)) => Ok(FileAttempt::Carried),
        (FileStep::Carry, StepEvent::Carried(false)) => Err(FileStep::Write),
        (FileStep::Write, StepEvent::Written) => Ok(FileAttempt::Written),
        (FileStep::Write, StepEvent::WriteFailed) => Err(FileStep::CarryAfterFailedWrite),
        (FileStep::Write, StepEvent::SourceMissing) => Ok(FileAttempt::SourceMissing),
        (FileStep::Write, StepEvent::SourceUnreadable(e)) => Err(FileStep::CarryAfterUnreadable { error: e }),
        (FileStep::CarryAfterFailedWrite, StepEvent::Carried(b)) => Ok(FileAttempt::WriteFailed { carried: b }),
        (FileStep::CarryAfterUnreadable { error }, StepEvent::Carried(b)) => Ok(
            FileAttempt::SourceUnreadable { carried: b, error },
        ),
        (s, _) => Err(s),
    }
}

/// What follows a step and what happened (see `after_step_spec`).
pub fn after_step(step: FileStep, event: StepEvent) -> (r: Result<FileAttempt, FileStep>)
    ensures
        r == after_step_spec(step, event),
{
    match (step, event) {
        (FileStep::Carry, StepEvent::Carried(true)) => Ok(FileAttempt::Carried),
        (FileStep::Carry, StepEvent::Carried(false)) => Err(FileStep::Write),
        (FileStep::Write, StepEvent::Written) => Ok(FileAttempt::Written),
        (FileStep::Write, StepEvent::WriteFailed) => Err(FileStep::CarryAfterFailedWrite),
        (FileStep::Write, StepEvent::SourceMissing) => Ok(FileAttempt::SourceMissing),
        (FileStep::Write, StepEvent::SourceUnreadable(e)) => Err(FileStep::CarryAfterUnreadable { error: e }),
        (FileStep::CarryAfterFailedWrite, StepEvent::Carried(b)) => Ok(FileAttempt::WriteFailed { carried: b }),
        (FileStep::CarryAfterUnreadable { error }, StepEvent::Carried(b)) => Ok(
            FileAttempt::SourceUnreadable { carried: b, error },
        ),
        (s, _) => Err(s),
    }
}

} // verus!
