//! What a pass did: its counters, the lines it writes to the activity log,
//! and how its result is reported (status, notification, last run).
use vstd::prelude::*;
use crate::text::{decimal, decimal_string, push_str};
use crate::config::LastRun;

verus! {

/// Counters of one pass over a pair.
#[derive(Clone, Copy)]
pub struct SyncOutcome {
    pub copied: u64,
    pub updated: u64,
    pub deleted: u64,
    pub errors: u64,
    /// The pass was held back (in part) by a safety guard.
    pub aborted_safety: bool,
}

impl Default for SyncOutcome {
    fn default() -> (r: SyncOutcome)
        ensures
            r.copied == 0,
            r.updated == 0,
            r.deleted == 0,
            r.errors == 0,
            !r.aborted_safety,
    {
        SyncOutcome { copied: 0, updated: 0, deleted: 0, errors: 0, aborted_safety: false }
    }
}

/// A line for the activity log: severity (`info`, `warn`, `error`), action
/// (`copy`, `update`, `delete`, `skip`, `error`, `info`), the path it is
/// about, and the message.
pub struct LogLine {
    pub level: String,
    pub action: String,
    pub path: Option<String>,
    pub message: String,
}

/// The view of an optional text.
pub open spec fn opt_view(p: Option<String>) -> Option<Seq<char>> {
    match p {
        Some(s) => Some(s@),
        None => None,
    }
}

/// Whether a log line has the given parts.
pub open spec fn log_is(l: LogLine, level: Seq<char>, action: Seq<char>, path: Option<Seq<char>>, message: Seq<char>) -> bool {
    l.level@ == level && l.action@ == action && opt_view(l.path) == path && l.message@ == message
}

/// A log line about a path.
pub fn log_about(level: &str, action: &str, path: &str, message: &str) -> (r: LogLine)
    ensures
        log_is(r, level@, action@, Some(path@), message@),
{
    LogLine { level: level.to_string(), action: action.to_string(), path: Some(path.to_string()), message: message.to_string() }
}

/// A log line about the pass as a whole.
pub fn log_general(level: &str, action: &str, message: &str) -> (r: LogLine)
    ensures
        log_is(r, level@, action@, None, message@),
{
    LogLine { level: level.to_string(), action: action.to_string(), path: None, message: message.to_string() }
}

/// `a` followed by `b`.
pub fn joined(a: &str, b: &str) -> (r: String)
    ensures
        r@ == a@ + b@,
{
    let mut r = a.to_string();
    push_str(&mut r, b);
    r
}

/// Whether a pass went well: no error and nothing held back.
pub open spec fn pass_ok(out: SyncOutcome) -> bool {
    out.errors == 0 && !out.aborted_safety
}

/// Whether a pass went well.
pub fn succeeded(out: &SyncOutcome) -> (r: bool)
    ensures
        r == pass_ok(*out),
{
    out.errors == 0 && !out.aborted_safety
}

/// The status recorded for the last run: `ok` or `error`.
pub fn run_status(out: &SyncOutcome) -> (r: &'static str)
    ensures
        r@ == if pass_ok(*out) { "ok"@ } else { "error"@ },
{
    if succeeded(out) {
        "ok"
    } else {
        "error"
    }
}

/// The status shown for the pair afterwards: `idle` or `error`.
pub fn pair_status_after(out: &SyncOutcome) -> (r: &'static str)
    ensures
        r@ == if pass_ok(*out) { "idle"@ } else { "error"@ },
{
    if succeeded(out) {
        "idle"
    } else {
        "error"
    }
}

/// The title of the end-of-pass notification.
pub fn summary_title(out: &SyncOutcome) -> (r: &'static str)
    ensures
        r@ == if pass_ok(*out) { "Reflet — synchro terminée"@ } else { "Reflet — synchro avec erreurs"@ },
{
    if succeeded(out) {
        "Reflet — synchro terminée"
    } else {
        "Reflet — synchro avec erreurs"
    }
}

/// The body of the end-of-pass notification:
/// `<name> : <c> copiés, <u> màj, <d> supprimés`, then `, <e> erreurs` when
/// there were errors.
pub open spec fn summary_text(name: Seq<char>, out: SyncOutcome) -> Seq<char> {
    name + " : "@ + decimal(out.copied as nat) + " copiés, "@ + decimal(out.updated as nat) + " màj, "@
        + decimal(out.deleted as nat) + " supprimés"@ + if out.errors > 0 {
        ", "@ + decimal(out.errors as nat) + " erreurs"@
    } else {
        Seq::<char>::empty()
    }
}

/// The body of the end-of-pass notification (see `summary_text`).
pub fn summary_body(name: &str, out: &SyncOutcome) -> (r: String)
    ensures
        r@ == summary_text(name@, *out),
{
    let mut r = joined(name, " : ");
    push_str(&mut r, decimal_string(out.copied).as_str());
    push_str(&mut r, " copiés, ");
    push_str(&mut r, decimal_string(out.updated).as_str());
    push_str(&mut r, " màj, ");
    push_str(&mut r, decimal_string(out.deleted).as_str());
    push_str(&mut r, " supprimés");
    let ghost head = r@;
    if out.errors > 0 {
        push_str(&mut r, ", ");
        push_str(&mut r, decimal_string(out.errors).as_str());
        push_str(&mut r, " erreurs");
    }
    assert(r@ =~= summary_text(name@, *out));
    r
}

/// The record of a finished run, stamped `at`.
pub fn last_run_of(at: String, out: &SyncOutcome) -> (r: LastRun)
    ensures
        r.at == at,
        r.status@ == if pass_ok(*out) { "ok"@ } else { "error"@ },
        r.copied == out.copied,
        r.updated == out.updated,
        r.deleted == out.deleted,
        r.errors == out.errors,
{
    LastRun {
        at,
        status: run_status(out).to_string(),
        copied: out.copied,
        updated: out.updated,
        deleted: out.deleted,
        errors: out.errors,
    }
}

/// How often progress is reported: every fiftieth of the work, at least
/// every item.
pub open spec fn progress_step_spec(total: nat) -> nat {
    if total / 50 > 1 {
        total / 50
    } else {
        1
    }
}

/// How many items pass between two progress reports.
pub fn progress_step(total: usize) -> (r: usize)
    ensures
        r == progress_step_spec(total as nat),
        r >= 1,
{
    let s = total / 50;
    if s > 1 {
        s
    } else {
        1
    }
}

/// Whether progress is reported after `done` items.
pub fn progress_due(done: usize, step: usize) -> (r: bool)
    requires
        step >= 1,
    ensures
        r == (done % step == 0),
{
    done % step == 0
}

} // verus!
