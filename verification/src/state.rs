//! What the application keeps while it runs: the activity log (bounded),
//! the status of each pair, and the requests sent to the sync worker.
use vstd::prelude::*;
use std::collections::VecDeque;
use crate::text::str_equal;
use crate::outcome::LogLine;

verus! {

/// The most entries the activity log keeps; older ones are dropped.
pub const MAX_LOGS: usize = 300;

/// How many pairs are synchronised at the same time.
pub const MAX_CONCURRENT_SYNCS: usize = 2;

/// An entry of the activity log.
pub struct LogEntry {
    /// When (RFC 3339).
    pub at: String,
    pub level: String,
    pub pair_id: Option<String>,
    pub action: String,
    pub path: Option<String>,
    pub message: String,
}

/// A request to the sync worker.
pub enum SyncRequest {
    /// Run the pair with this id.
    Pair(String),
    /// Run every enabled pair.
    All,
}

/// The log entry of a line written for pair `pair_id` at time `at`.
pub fn log_entry(at: String, pair_id: &str, line: LogLine) -> (r: LogEntry)
    ensures
        r.at == at,
        r.pair_id matches Some(p) && p@ == pair_id@,
        r.level == line.level,
        r.action == line.action,
        r.path == line.path,
        r.message == line.message,
{
    LogEntry {
        at,
        level: line.level,
        pair_id: Some(pair_id.to_string()),
        action: line.action,
        path: line.path,
        message: line.message,
    }
}

/// The log after adding an entry: the oldest entry goes first when the log
/// is full.
pub open spec fn pushed_log(logs: Seq<LogEntry>, entry: LogEntry) -> Seq<LogEntry> {
    if logs.len() >= MAX_LOGS {
        logs.drop_first().push(entry)
    } else {
        logs.push(entry)
    }
}

/// Adds an entry to the activity log, dropping the oldest when it is full.
pub fn push_log(logs: &mut VecDeque<LogEntry>, entry: LogEntry)
    ensures
        final(logs)@ == pushed_log(old(logs)@, entry),
{
    if logs.len() >= MAX_LOGS {
        let _oldest = logs.pop_front();
    }
    logs.push_back(entry);
}

/// A log that holds at most `MAX_LOGS` entries still does after an entry is
/// added; the entry added is the last one, and the others keep their order.
pub proof fn lemma_log_bounded(logs: Seq<LogEntry>, entry: LogEntry)
    requires
        logs.len() <= MAX_LOGS,
    ensures
        pushed_log(logs, entry).len() <= MAX_LOGS,
        pushed_log(logs, entry).last() == entry,
        logs.len() < MAX_LOGS ==> pushed_log(logs, entry).drop_last() == logs,
        logs.len() == MAX_LOGS ==> pushed_log(logs, entry).drop_last() == logs.drop_first(),
{
    assert(logs.push(entry).drop_last() =~= logs);
    if logs.len() > 0 {
        assert(logs.drop_first().push(entry).drop_last() =~= logs.drop_first());
    }
}

/// The status of each pair (`idle`, `syncing`, `error`, `disabled`), one per
/// pair id.
pub struct Statuses {
    entries: Vec<(String, String)>,
}

impl Statuses {
    /// No id occurs twice.
    pub closed spec fn wf(self) -> bool {
        forall|i: int, j: int| 0 <= i < j < self.entries@.len() ==> self.entries@[i].0@ != self.entries@[j].0@
    }

    /// The status recorded for an id, if any.
    pub closed spec fn status_of(self, id: Seq<char>) -> Option<Seq<char>> {
        if exists|i: int| 0 <= i < self.entries@.len() && self.entries@[i].0@ == id {
            Some(self.entries@[choose|i: int| 0 <= i < self.entries@.len() && self.entries@[i].0@ == id].1@)
        } else {
            None
        }
    }

    /// No status at all.
    pub fn new() -> (r: Statuses)
        ensures
            r.wf(),
            forall|id: Seq<char>| r.status_of(id) is None,
    {
        Statuses { entries: Vec::new() }
    }

    /// The position of `id`.
    fn position(&self, id: &str) -> (r: Option<usize>)
        ensures
            match r {
                Some(i) => i < self.entries@.len() && self.entries@[i as int].0@ == id@,
                None => forall|j: int| 0 <= j < self.entries@.len() ==> self.entries@[j].0@ != id@,
            },
    {
        let n = self.entries.len();
        for i in 0..n
            invariant
                n == self.entries@.len(),
                forall|j: int| 0 <= j < i ==> self.entries@[j].0@ != id@,
        {
            if str_equal(self.entries[i].0.as_str(), id) {
                return Some(i);
            }
        }
        None
    }

    /// The entry of an id is the one at its position.
    proof fn lemma_status_at(&self, i: int)
        requires
            self.wf(),
            0 <= i < self.entries@.len(),
        ensures
            self.status_of(self.entries@[i].0@) == Some(self.entries@[i].1@),
    {
        let id = self.entries@[i].0@;
        assert(exists|k: int| 0 <= k < self.entries@.len() && self.entries@[k].0@ == id);
        let k = choose|k: int| 0 <= k < self.entries@.len() && self.entries@[k].0@ == id;
        if k != i {
            if k < i {
                assert(self.entries@[k].0@ != self.entries@[i].0@);
            } else {
                assert(self.entries@[i].0@ != self.entries@[k].0@);
            }
        }
    }

    /// The status recorded for an id.
    pub fn get(&self, id: &str) -> (r: Option<String>)
        requires
            self.wf(),
        ensures
            crate::outcome::opt_view(r) == self.status_of(id@),
    {
        match self.position(id) {
            Some(i) => {
                proof {
                    self.lemma_status_at(i as int);
                }
                Some(self.entries[i].1.clone())
            },
            None => None,
        }
    }

    /// Records the status of an id; the others stay.
    pub fn set(&mut self, id: &str, status: &str)
        requires
            old(self).wf(),
        ensures
            final(self).wf(),
            final(self).status_of(id@) == Some(status@),
            forall|other: Seq<char>| other != id@ ==> final(self).status_of(other) == old(self).status_of(other),
    {
        let ghost before = *self;
        match self.position(id) {
            Some(i) => {
                let _old = self.entries.remove(i);
                self.entries.insert(i, (id.to_string(), status.to_string()));
                assert(self.entries@ =~= before.entries@.update(i as int, self.entries@[i as int]));
                proof {
                    self.lemma_status_at(i as int);
                    assert forall|other: Seq<char>| other != id@ implies self.status_of(other) == before.status_of(other) by {
                        if exists|k: int| 0 <= k < before.entries@.len() && before.entries@[k].0@ == other {
                            let k = choose|k: int| 0 <= k < before.entries@.len() && before.entries@[k].0@ == other;
                            before.lemma_status_at(k);
                            self.lemma_status_at(k);
                        }
                        if exists|k: int| 0 <= k < self.entries@.len() && self.entries@[k].0@ == other {
                            let k = choose|k: int| 0 <= k < self.entries@.len() && self.entries@[k].0@ == other;
                            assert(before.entries@[k].0@ == other);
                        }
                    }
                }
            },
            None => {
                self.entries.push((id.to_string(), status.to_string()));
                proof {
                    let last = self.entries@.len() - 1;
                    self.lemma_status_at(last);
                    assert forall|other: Seq<char>| other != id@ implies self.status_of(other) == before.status_of(other) by {
                        if exists|k: int| 0 <= k < before.entries@.len() && before.entries@[k].0@ == other {
                            let k = choose|k: int| 0 <= k < before.entries@.len() && before.entries@[k].0@ == other;
                            before.lemma_status_at(k);
                            assert(self.entries@[k] == before.entries@[k]);
                            self.lemma_status_at(k);
                        }
                        if exists|k: int| 0 <= k < self.entries@.len() && self.entries@[k].0@ == other {
                            let k = choose|k: int| 0 <= k < self.entries@.len() && self.entries@[k].0@ == other;
                            assert(k < last);
                            assert(before.entries@[k].0@ == other);
                        }
                    }
                }
            },
        }
    }

    /// Forgets the status of an id; the others stay.
    pub fn remove(&mut self, id: &str)
        requires
            old(self).wf(),
        ensures
            final(self).wf(),
            final(self).status_of(id@) is None,
            forall|other: Seq<char>| other != id@ ==> final(self).status_of(other) == old(self).status_of(other),
    {
        let ghost before = *self;
        match self.position(id) {
            Some(i) => {
                let _old = self.entries.remove(i);
                proof {
                    assert forall|a: int, b: int| 0 <= a < b < self.entries@.len() implies self.entries@[a].0@
                        != self.entries@[b].0@ by {
                        let a0 = if a < i { a } else { a + 1 };
                        let b0 = if b < i { b } else { b + 1 };
                        assert(self.entries@[a] == before.entries@[a0]);
                        assert(self.entries@[b] == before.entries@[b0]);
                    }
                    if exists|k: int| 0 <= k < self.entries@.len() && self.entries@[k].0@ == id@ {
                        let k = choose|k: int| 0 <= k < self.entries@.len() && self.entries@[k].0@ == id@;
                        let k0 = if k < i { k } else { k + 1 };
                        assert(before.entries@[k0].0@ == id@);
                        assert(before.entries@[i as int].0@ == id@);
                    }
                    assert forall|other: Seq<char>| other != id@ implies self.status_of(other) == before.status_of(other) by {
                        if exists|k: int| 0 <= k < before.entries@.len() && before.entries@[k].0@ == other {
                            let k = choose|k: int| 0 <= k < before.entries@.len() && before.entries@[k].0@ == other;
                            before.lemma_status_at(k);
                            assert(k != i);
                            let k1 = if k < i { k } else { k - 1 };
                            assert(self.entries@[k1] == before.entries@[k]);
                            self.lemma_status_at(k1);
                        }
                        if exists|k: int| 0 <= k < self.entries@.len() && self.entries@[k].0@ == other {
                            let k = choose|k: int| 0 <= k < self.entries@.len() && self.entries@[k].0@ == other;
                            let k0 = if k < i { k } else { k + 1 };
                            assert(before.entries@[k0].0@ == other);
                        }
                    }
                }
            },
            None => {},
        }
    }
}

/// The status shown for a pair: `disabled` when it is off, else its
/// recorded status, `idle` when none.
pub fn status_shown(enabled: bool, recorded: Option<String>) -> (r: String)
    ensures
        r@ == if !enabled {
            "disabled"@
        } else {
            match recorded {
                Some(s) => s@,
                None => "idle"@,
            }
        },
{
    if !enabled {
        "disabled".to_string()
    } else {
        match recorded {
            Some(s) => s,
            None => "idle".to_string(),
        }
    }
}

/// The message when the sync worker is not running.
pub fn worker_missing_message() -> (r: String)
    ensures
        r@ == "worker de synchronisation non démarré"@,
{
    "worker de synchronisation non démarré".to_string()
}

} // verus!
