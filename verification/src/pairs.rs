//! Editing the list of pairs: adding, updating, enabling, watching,
//! deleting and reordering pairs, the checks each edit makes, and what the
//! real-time watchers must do afterwards.
use vstd::prelude::*;
use crate::text::{is_blank, push_str, str_equal, trimmed};
use crate::config::{CompressionConfig, Config, LastRun, Settings, SyncPair, same_pair, copy_strings};
use crate::archive::{archive_mode, archive_path_spec, archive_target_with};
use crate::paths::{ResolvedFolders, folders_overlap, main_separator, platform_separator, resolved_overlap};
use crate::outcome::joined;

verus! {

/// A pair as entered by the user, before it gets an id.
pub struct NewPair {
    pub name: String,
    pub source: String,
    pub destination: String,
    pub enabled: bool,
    pub interval_sec_override: Option<u64>,
    pub notify_pc: bool,
    pub notify_app: bool,
    pub ignore_patterns: Vec<String>,
    pub watch_realtime: bool,
    pub schedule_times: Vec<String>,
    pub min_file_size: u64,
    pub max_file_size: u64,
    pub color: String,
    pub compression: CompressionConfig,
    pub backup_mode: bool,
}

/// The message for a minimum size above a (non-zero) maximum size.
pub open spec fn size_error_text() -> Seq<char> {
    "Taille minimale supérieure à la taille maximale."@
}

/// The message for a pair without source or destination.
pub open spec fn required_text() -> Seq<char> {
    "Source et destination requises"@
}

/// The message for overlapping folders.
pub open spec fn nested_text() -> Seq<char> {
    "Source et destination imbriquées (interdit)"@
}

/// The message for an unknown pair id.
pub open spec fn not_found_text() -> Seq<char> {
    "Paire introuvable"@
}

/// The message for two pairs writing the same archive.
pub open spec fn conflict_text(other: Seq<char>) -> Seq<char> {
    "Conflit d'archive avec « "@ + other
        + " » (même fichier .zip de destination). Change le nom de l'archive ou la destination."@
}

/// Whether size bounds let no file through: a minimum above a non-zero
/// maximum.
pub open spec fn sizes_inconsistent(min: u64, max: u64) -> bool {
    max > 0 && min > max
}

/// Refuses size bounds that no file can meet.
pub fn validate_size_filter(min: u64, max: u64) -> (r: Result<(), String>)
    ensures
        r is Err <==> sizes_inconsistent(min, max),
        r matches Err(e) ==> e@ == size_error_text(),
{
    if max > 0 && min > max {
        return Err("Taille minimale supérieure à la taille maximale.".to_string());
    }
    Ok(())
}

/// Whether two texts are the same `Path` (compared component by component)
/// under the parsing rules of the platform whose separator is `sep` (`\\`
/// on Windows, where `/` also separates and drive prefixes are parsed; `/`
/// elsewhere).
pub uninterp spec fn path_eq(a: Seq<char>, b: Seq<char>, sep: char) -> bool;

/// `Path` equality (`==` on `std::path::Path`), with the separator of the
/// platform (`std::path::MAIN_SEPARATOR`) whose parsing rules it applied;
/// equal texts are equal paths.
#[verifier::external_body]
fn same_path(a: &str, b: &str) -> (r: (bool, char))
    ensures
        r.1 == '/' || r.1 == '\\',
        r.0 == path_eq(a@, b@, r.1),
        a@ == b@ ==> r.0,
{
    (std::path::Path::new(a) == std::path::Path::new(b), std::path::MAIN_SEPARATOR)
}

/// Whether `same` is the answer of `Path` equality for `a` and `b` on this
/// platform (whose separator is `/` or `\\`).
pub open spec fn compared_as_paths(same: bool, a: Seq<char>, b: Seq<char>) -> bool {
    exists|s: char| (s == '/' || s == '\\') && same == path_eq(a, b, s)
}

/// Whether no other pair (id different from `self_id`) in archive mode
/// writes the archive path of `pair`, joined with `sep`.
pub open spec fn no_shared_target(pairs: Seq<SyncPair>, self_id: Seq<char>, pair: SyncPair, sep: char) -> bool {
    forall|i: int|
        0 <= i < pairs.len() && pairs[i].id@ != self_id && archive_mode(pairs[i]) && archive_mode(pair)
            ==> archive_path_spec(#[trigger] pairs[i], sep) != archive_path_spec(pair, sep)
}

/// Whether pair `p` could write the same archive as `pair`: another id, and
/// both in archive mode.
pub open spec fn clash_candidate(p: SyncPair, self_id: Seq<char>, pair: SyncPair) -> bool {
    p.id@ != self_id && archive_mode(p) && archive_mode(pair)
}

/// Whether position `k` holds the first candidate that the answers `same`
/// (one per pair) report as writing the same archive file.
pub open spec fn first_clash(pairs: Seq<SyncPair>, self_id: Seq<char>, pair: SyncPair, same: Seq<bool>, k: int) -> bool {
    &&& 0 <= k < pairs.len()
    &&& clash_candidate(pairs[k], self_id, pair) && same[k]
    &&& forall|j: int| 0 <= j < k ==> !(clash_candidate(#[trigger] pairs[j], self_id, pair) && same[j])
}

/// Whether `r` names the first clashing pair under the answers `same`, or is
/// none when no candidate clashes.
pub open spec fn clash_answer(r: Option<String>, pairs: Seq<SyncPair>, self_id: Seq<char>, pair: SyncPair, same: Seq<bool>) -> bool {
    match r {
        Some(n) => exists|k: int| #[trigger] first_clash(pairs, self_id, pair, same, k) && n@ == pairs[k].name@,
        None => forall|i: int| 0 <= i < pairs.len() ==> !(clash_candidate(#[trigger] pairs[i], self_id, pair) && same[i]),
    }
}

/// The name of the first other pair in archive mode that writes the same
/// archive file as `pair`, given for each pair whether its archive path is
/// the same path as that of `pair` (`same`).
pub fn first_clash_name(pairs: &Vec<SyncPair>, self_id: &str, pair: &SyncPair, same: &Vec<bool>) -> (r: Option<String>)
    requires
        same@.len() == pairs@.len(),
    ensures
        clash_answer(r, pairs@, self_id@, *pair, same@),
{
    if !crate::pass::previews_archive(pair) {
        return None;
    }
    let n = pairs.len();
    for i in 0..n
        invariant
            n == pairs@.len(),
            same@.len() == n,
            archive_mode(*pair),
            forall|j: int| 0 <= j < i ==> !(clash_candidate(#[trigger] pairs@[j], self_id@, *pair) && same@[j]),
    {
        let p = &pairs[i];
        if !str_equal(p.id.as_str(), self_id) && crate::pass::previews_archive(p) && same[i] {
            assert(first_clash(pairs@, self_id@, *pair, same@, i as int));
            return Some(p.name.clone());
        }
    }
    None
}

/// Whether the answers `same` are those of path equality for the archives
/// joined with `sep`: only candidates are compared, each answer is `Path`
/// equality of the two archive paths (`compared_as_paths`), and a candidate
/// whose archive path has the same text as that of `pair` is the same file.
pub open spec fn sound_answers(pairs: Seq<SyncPair>, self_id: Seq<char>, pair: SyncPair, sep: char, same: Seq<bool>) -> bool {
    &&& same.len() == pairs.len()
    &&& forall|i: int| 0 <= i < pairs.len() && !clash_candidate(#[trigger] pairs[i], self_id, pair) ==> !same[i]
    &&& forall|i: int|
        0 <= i < pairs.len() && clash_candidate(#[trigger] pairs[i], self_id, pair) ==> compared_as_paths(
            same[i],
            archive_path_spec(pairs[i], sep),
            archive_path_spec(pair, sep),
        )
    &&& forall|i: int|
        0 <= i < pairs.len() && clash_candidate(#[trigger] pairs[i], self_id, pair) && archive_path_spec(pairs[i], sep)
            == archive_path_spec(pair, sep) ==> same[i]
}

/// For each pair, whether it is a candidate (see `clash_candidate`) whose
/// archive path is the same path as that of `pair` (`Path` equality, which
/// depends on the platform): the answers are sound for the platform
/// separator.
fn clash_answers(pairs: &Vec<SyncPair>, self_id: &str, pair: &SyncPair) -> (same: Vec<bool>)
    ensures
        exists|sep: char| (sep == '/' || sep == '\\') && #[trigger] sound_answers(pairs@, self_id@, *pair, sep, same@),
{
    let sep = main_separator();
    let target = archive_target_with(pair, sep);
    let n = pairs.len();
    let mut same: Vec<bool> = Vec::new();
    for i in 0..n
        invariant
            n == pairs@.len(),
            same@.len() == i,
            target matches Some(t) ==> archive_mode(*pair) && t@ == archive_path_spec(*pair, sep),
            target is None ==> !archive_mode(*pair),
            forall|j: int| 0 <= j < i && !clash_candidate(#[trigger] pairs@[j], self_id@, *pair) ==> !same@[j],
            forall|j: int|
                0 <= j < i && clash_candidate(#[trigger] pairs@[j], self_id@, *pair) && archive_path_spec(pairs@[j], sep)
                    == archive_path_spec(*pair, sep) ==> same@[j],
            forall|j: int|
                0 <= j < i && clash_candidate(#[trigger] pairs@[j], self_id@, *pair) ==> compared_as_paths(
                    same@[j],
                    archive_path_spec(pairs@[j], sep),
                    archive_path_spec(*pair, sep),
                ),
    {
        let p = &pairs[i];
        let ans = match &target {
            Some(t) => if !str_equal(p.id.as_str(), self_id) {
                match archive_target_with(p, sep) {
                    Some(u) => {
                        let (eq, platform) = same_path(u.as_str(), t.as_str());
                        assert((platform == '/' || platform == '\\') && eq == path_eq(u@, t@, platform));
                        eq
                    },
                    None => false,
                }
            } else {
                false
            },
            None => false,
        };
        let ghost before = same@;
        same.push(ans);
        proof {
            assert forall|j: int|
                0 <= j < i + 1 && clash_candidate(#[trigger] pairs@[j], self_id@, *pair) implies compared_as_paths(
                    same@[j],
                    archive_path_spec(pairs@[j], sep),
                    archive_path_spec(*pair, sep),
                ) by {
                if j < i {
                    assert(same@[j] == before[j]);
                }
            }
        }
    }
    assert(sound_answers(pairs@, self_id@, *pair, sep, same@));
    same
}

/// The first other pair (id different from `self_id`) in archive mode whose
/// archive is the same file as that of `pair`, by name; none when `pair` is
/// not in archive mode. Archive paths are compared as paths (`Path`
/// equality, which depends on the platform), so the same text is always the
/// same file; the result is `first_clash_name` of those answers.
pub fn archive_conflict(pairs: &Vec<SyncPair>, self_id: &str, pair: &SyncPair) -> (r: Option<String>)
    ensures
        exists|sep: char, same: Seq<bool>|
            (sep == '/' || sep == '\\') && #[trigger] sound_answers(pairs@, self_id@, *pair, sep, same)
                && clash_answer(r, pairs@, self_id@, *pair, same),
        !archive_mode(*pair) ==> r is None,
        r matches Some(n) ==> exists|i: int|
            0 <= i < pairs@.len() && pairs@[i].id@ != self_id@ && archive_mode(pairs@[i]) && pairs@[i].name@
                == n@,
        r is None ==> exists|sep: char| (sep == '/' || sep == '\\') && #[trigger] no_shared_target(pairs@, self_id@, *pair, sep),
{
    let same = clash_answers(pairs, self_id, pair);
    let ghost sep = choose|sep: char| (sep == '/' || sep == '\\') && sound_answers(pairs@, self_id@, *pair, sep, same@);
    let r = first_clash_name(pairs, self_id, pair, &same);
    proof {
        assert(sound_answers(pairs@, self_id@, *pair, sep, same@));
        if r is None {
            assert forall|i: int|
                0 <= i < pairs@.len() && pairs@[i].id@ != self_id@ && archive_mode(pairs@[i]) && archive_mode(*pair)
                    implies archive_path_spec(#[trigger] pairs@[i], sep) != archive_path_spec(*pair, sep) by {
                assert(clash_candidate(pairs@[i], self_id@, *pair));
            }
            assert(no_shared_target(pairs@, self_id@, *pair, sep));
        }
    }
    r
}

/// The message for the first clashing pair under the answers `same`, if any.
pub open spec fn clash_error(pairs: Seq<SyncPair>, self_id: Seq<char>, pair: SyncPair, same: Seq<bool>) -> Option<Seq<char>> {
    if exists|k: int| first_clash(pairs, self_id, pair, same, k) {
        Some(conflict_text(pairs[choose|k: int| first_clash(pairs, self_id, pair, same, k)].name@))
    } else {
        None
    }
}

/// At most one position is the first clash.
proof fn lemma_first_clash_unique(pairs: Seq<SyncPair>, self_id: Seq<char>, pair: SyncPair, same: Seq<bool>, a: int, b: int)
    requires
        first_clash(pairs, self_id, pair, same, a),
        first_clash(pairs, self_id, pair, same, b),
    ensures
        a == b,
{
    if a < b {
        assert(!(clash_candidate(pairs[a], self_id, pair) && same[a]));
    } else if b < a {
        assert(!(clash_candidate(pairs[b], self_id, pair) && same[b]));
    }
}

/// The error of the first clash found by `first_clash_name`, as a message.
fn clash_message(pairs: &Vec<SyncPair>, self_id: &str, pair: &SyncPair, same: &Vec<bool>) -> (r: Option<String>)
    requires
        same@.len() == pairs@.len(),
    ensures
        crate::outcome::opt_view(r) == clash_error(pairs@, self_id@, *pair, same@),
{
    match first_clash_name(pairs, self_id, pair, same) {
        Some(n) => {
            let ghost k = choose|k: int| #[trigger] first_clash(pairs@, self_id@, *pair, same@, k) && n@ == pairs@[k].name@;
            let ghost c = choose|k: int| first_clash(pairs@, self_id@, *pair, same@, k);
            proof {
                lemma_first_clash_unique(pairs@, self_id@, *pair, same@, k, c);
            }
            Some(conflict_message(n.as_str()))
        },
        None => {
            proof {
                if exists|k: int| first_clash(pairs@, self_id@, *pair, same@, k) {
                    let k = choose|k: int| first_clash(pairs@, self_id@, *pair, same@, k);
                    assert(!(clash_candidate(pairs@[k], self_id@, *pair) && same@[k]));
                }
            }
            None
        },
    }
}

/// What the real-time watcher of a pair must do.
pub enum WatchAction {
    /// Watch `source` for pair `id` (nothing if already watched).
    Start { id: String, source: String },
    /// Stop watching pair `id`.
    Stop { id: String },
    /// Nothing.
    Keep,
}

/// What the watcher of pair `id` must do: watch its source when the pair is
/// enabled and watched (and the source known), stop otherwise.
pub open spec fn watch_action_is(a: WatchAction, id: Seq<char>, enabled: bool, watch: bool, source: Option<Seq<char>>) -> bool {
    if enabled && watch {
        match source {
            Some(s) => a matches WatchAction::Start { id: i, source: s2 } && i@ == id && s2@ == s,
            None => a is Keep,
        }
    } else {
        a matches WatchAction::Stop { id: i } && i@ == id
    }
}

/// What the watcher of pair `id` must do (see `watch_action_is`).
pub fn reconcile_watcher(id: &str, enabled: bool, watch: bool, source: Option<&str>) -> (r: WatchAction)
    ensures
        watch_action_is(
            r,
            id@,
            enabled,
            watch,
            match source {
                Some(s) => Some(s@),
                None => None,
            },
        ),
{
    if enabled && watch {
        match source {
            Some(s) => WatchAction::Start { id: id.to_string(), source: s.to_string() },
            None => WatchAction::Keep,
        }
    } else {
        WatchAction::Stop { id: id.to_string() }
    }
}

/// Whether position `i` holds the first pair with id `id`.
pub open spec fn first_with_id(pairs: Seq<SyncPair>, id: Seq<char>, i: int) -> bool {
    &&& 0 <= i < pairs.len()
    &&& pairs[i].id@ == id
    &&& forall|j: int| 0 <= j < i ==> (#[trigger] pairs[j]).id@ != id
}

/// Whether some pair has id `id`.
pub open spec fn has_id(pairs: Seq<SyncPair>, id: Seq<char>) -> bool {
    exists|j: int| 0 <= j < pairs.len() && (#[trigger] pairs[j]).id@ == id
}

/// The position of the first pair with id `id`.
pub fn find_pair(pairs: &Vec<SyncPair>, id: &str) -> (r: Option<usize>)
    ensures
        match r {
            Some(i) => first_with_id(pairs@, id@, i as int),
            None => !has_id(pairs@, id@),
        },
{
    let n = pairs.len();
    for i in 0..n
        invariant
            n == pairs@.len(),
            forall|j: int| 0 <= j < i ==> (#[trigger] pairs@[j]).id@ != id@,
    {
        if str_equal(pairs[i].id.as_str(), id) {
            return Some(i);
        }
    }
    None
}

/// `s` with its element at `i` replaced, by removing and inserting.
/// A list holding id `id` at position `j` has a first position with it.
proof fn lemma_has_first(pairs: Seq<SyncPair>, id: Seq<char>, j: int)
    requires
        0 <= j < pairs.len(),
        pairs[j].id@ == id,
    ensures
        exists|i: int| #[trigger] first_with_id(pairs, id, i),
    decreases j,
{
    if exists|k: int| 0 <= k < j && (#[trigger] pairs[k]).id@ == id {
        let k = choose|k: int| 0 <= k < j && (#[trigger] pairs[k]).id@ == id;
        lemma_has_first(pairs, id, k);
    } else {
        assert(first_with_id(pairs, id, j));
    }
}

proof fn lemma_remove_insert<A>(s: Seq<A>, i: int, x: A)
    requires
        0 <= i < s.len(),
    ensures
        s.remove(i).insert(i, x) == s.update(i, x),
{
    assert(s.remove(i).insert(i, x) =~= s.update(i, x));
}

/// Turns the pair `id` on or off; the watcher then follows (see
/// `reconcile_watcher`). An unknown id is refused and nothing changes.
pub fn set_pair_enabled(config: &mut Config, id: &str, enabled: bool) -> (r: Result<WatchAction, String>)
    ensures
        !has_id(old(config).pairs@, id@) ==> (r matches Err(e) && e@ == not_found_text() && *final(config)
            == *old(config)),
        forall|i: int|
            first_with_id(old(config).pairs@, id@, i) ==> {
                let p = old(config).pairs@[i];
                &&& final(config).settings == old(config).settings
                &&& final(config).pairs@ == old(config).pairs@.update(i, SyncPair { enabled, ..p })
                &&& r matches Ok(a) && watch_action_is(a, id@, enabled, p.watch_realtime, Some(p.source@))
            },
{
    match find_pair(&config.pairs, id) {
        None => Err("Paire introuvable".to_string()),
        Some(i) => {
            let ghost before = config.pairs@;
            let mut p = config.pairs.remove(i);
            p.enabled = enabled;
            let a = reconcile_watcher(id, enabled, p.watch_realtime, Some(p.source.as_str()));
            config.pairs.insert(i, p);
            proof {
                lemma_remove_insert(before, i as int, SyncPair { enabled, ..before[i as int] });
                assert forall|j: int| first_with_id(before, id@, j) implies j == i by {
                    if j < i {
                        assert(before[j].id@ != id@);
                    } else if j > i {
                        assert(before[i as int].id@ != id@);
                    }
                }
            }
            Ok(a)
        },
    }
}

/// Turns real-time watching of the pair `id` on or off; the watcher then
/// follows. An unknown id is refused and nothing changes.
pub fn set_pair_watch_realtime(config: &mut Config, id: &str, watch: bool) -> (r: Result<WatchAction, String>)
    ensures
        !has_id(old(config).pairs@, id@) ==> (r matches Err(e) && e@ == not_found_text() && *final(config)
            == *old(config)),
        forall|i: int|
            first_with_id(old(config).pairs@, id@, i) ==> {
                let p = old(config).pairs@[i];
                &&& final(config).settings == old(config).settings
                &&& final(config).pairs@ == old(config).pairs@.update(i, SyncPair { watch_realtime: watch, ..p })
                &&& r matches Ok(a) && watch_action_is(a, id@, p.enabled, watch, Some(p.source@))
            },
{
    match find_pair(&config.pairs, id) {
        None => Err("Paire introuvable".to_string()),
        Some(i) => {
            let ghost before = config.pairs@;
            let mut p = config.pairs.remove(i);
            p.watch_realtime = watch;
            let a = reconcile_watcher(id, p.enabled, watch, Some(p.source.as_str()));
            config.pairs.insert(i, p);
            proof {
                lemma_remove_insert(before, i as int, SyncPair { watch_realtime: watch, ..before[i as int] });
                assert forall|j: int| first_with_id(before, id@, j) implies j == i by {
                    if j < i {
                        assert(before[j].id@ != id@);
                    } else if j > i {
                        assert(before[i as int].id@ != id@);
                    }
                }
            }
            Ok(a)
        },
    }
}

/// Turns off the pair `id` (a folder of it went missing); nothing changes
/// for an unknown id.
pub fn disable_pair(config: &mut Config, id: &str)
    ensures
        !has_id(old(config).pairs@, id@) ==> *final(config) == *old(config),
        forall|i: int|
            first_with_id(old(config).pairs@, id@, i) ==> final(config).settings == old(config).settings
                && final(config).pairs@ == old(config).pairs@.update(i, SyncPair { enabled: false, ..old(config).pairs@[i] }),
{
    let _ = set_pair_enabled(config, id, false);
}

/// Records the last run of the pair `id`; nothing changes for an unknown id.
pub fn record_last_run(config: &mut Config, id: &str, last: LastRun)
    ensures
        !has_id(old(config).pairs@, id@) ==> *final(config) == *old(config),
        forall|i: int|
            first_with_id(old(config).pairs@, id@, i) ==> final(config).settings == old(config).settings
                && final(config).pairs@ == old(config).pairs@.update(
                i,
                SyncPair { last_run: Some(last), ..old(config).pairs@[i] },
            ),
{
    match find_pair(&config.pairs, id) {
        None => {},
        Some(i) => {
            let ghost before = config.pairs@;
            let ghost l = last;
            let mut p = config.pairs.remove(i);
            p.last_run = Some(last);
            config.pairs.insert(i, p);
            proof {
                lemma_remove_insert(before, i as int, SyncPair { last_run: Some(l), ..before[i as int] });
                assert forall|j: int| first_with_id(before, id@, j) implies j == i by {
                    if j < i {
                        assert(before[j].id@ != id@);
                    } else if j > i {
                        assert(before[i as int].id@ != id@);
                    }
                }
            }
        },
    }
}

/// Removes every pair with id `id`; its watcher is stopped.
pub fn delete_pair(config: &mut Config, id: &str) -> (r: WatchAction)
    ensures
        final(config).settings == old(config).settings,
        final(config).pairs@ == without_id(old(config).pairs@, id@),
        r matches WatchAction::Stop { id: i } && i@ == id@,
{
    let ghost start = config.pairs@;
    let ghost keep = id_differs(id@);
    let mut i: usize = 0;
    let mut j: usize = 0;
    let n = config.pairs.len();
    while j < n
        invariant
            n == start.len(),
            keep == id_differs(id@),
            0 <= i <= j <= n,
            config.pairs@ == start.take(j as int).filter(keep) + start.skip(j as int),
            i == start.take(j as int).filter(keep).len(),
            config.settings == old(config).settings,
        decreases n - j,
    {
        proof {
            crate::lists::lemma_filter_take_step(start, j as int, keep);
            assert(start.skip(j as int)[0] == start[j as int]);
            assert(start.skip(j as int).drop_first() =~= start.skip(j + 1));
        }
        assert(config.pairs@[i as int] == start[j as int]);
        if str_equal(config.pairs[i].id.as_str(), id) {
            let _gone = config.pairs.remove(i);
            assert(config.pairs@ =~= start.take(j + 1).filter(keep) + start.skip(j + 1));
        } else {
            assert(config.pairs@ =~= start.take(j + 1).filter(keep) + start.skip(j + 1));
            i = i + 1;
        }
        j = j + 1;
    }
    assert(start.take(n as int) =~= start);
    assert(start.skip(n as int) =~= Seq::<SyncPair>::empty());
    assert(config.pairs@ =~= start.filter(keep));
    WatchAction::Stop { id: id.to_string() }
}

/// The last pair with id `id` (a later pair under the same id shadows an
/// earlier one).
pub open spec fn last_with_id(pairs: Seq<SyncPair>, id: Seq<char>) -> Option<SyncPair>
    decreases pairs.len(),
{
    if pairs.len() == 0 {
        None
    } else if pairs.last().id@ == id {
        Some(pairs.last())
    } else {
        last_with_id(pairs.drop_last(), id)
    }
}

/// The pairs named by `ids`, in that order (an id without pair is skipped,
/// an id given twice gives its pair twice).
pub open spec fn picked(pairs: Seq<SyncPair>, ids: Seq<Seq<char>>) -> Seq<SyncPair>
    decreases ids.len(),
{
    if ids.len() == 0 {
        seq![]
    } else {
        let p = picked(pairs, ids.drop_last());
        match last_with_id(pairs, ids.last()) {
            Some(x) => p.push(x),
            None => p,
        }
    }
}

/// The pairs in the order given by `ids`, followed by the pairs whose id is
/// not in `ids`, in their former order.
pub open spec fn reordered(pairs: Seq<SyncPair>, ids: Seq<Seq<char>>) -> Seq<SyncPair> {
    picked(pairs, ids) + pairs.filter(|p: SyncPair| !ids.contains(p.id@))
}

/// The last pair with id `id`, copied.
fn copy_last_with_id(pairs: &Vec<SyncPair>, id: &str) -> (r: Option<SyncPair>)
    ensures
        match last_with_id(pairs@, id@) {
            Some(p) => r matches Some(q) && same_pair(q, p),
            None => r is None,
        },
{
    let n = pairs.len();
    let mut k: usize = n;
    assert(pairs@.take(n as int) =~= pairs@);
    while k > 0
        invariant
            n == pairs@.len(),
            k <= n,
            last_with_id(pairs@, id@) == last_with_id(pairs@.take(k as int), id@),
        decreases k,
    {
        let ghost t = pairs@.take(k as int);
        assert(t.last() == pairs@[k - 1]);
        assert(t.drop_last() =~= pairs@.take(k - 1));
        if str_equal(pairs[k - 1].id.as_str(), id) {
            return Some(pairs[k - 1].duplicate());
        }
        k = k - 1;
    }
    assert(pairs@.take(0) =~= Seq::<SyncPair>::empty());
    None
}

/// Whether `id` is one of `ids`.
fn contains_id(ids: &Vec<String>, id: &str) -> (r: bool)
    ensures
        r == crate::scan::string_views(ids@).contains(id@),
{
    let ghost v = crate::scan::string_views(ids@);
    let n = ids.len();
    for i in 0..n
        invariant
            n == ids@.len(),
            v == crate::scan::string_views(ids@),
            forall|j: int| 0 <= j < i ==> v[j] != id@,
    {
        assert(v[i as int] == ids@[i as int]@);
        if str_equal(ids[i].as_str(), id) {
            return true;
        }
    }
    false
}

/// Whether two lists of pairs hold the same pairs in the same order.
pub open spec fn same_pairs(a: Seq<SyncPair>, b: Seq<SyncPair>) -> bool {
    a.len() == b.len() && forall|k: int| 0 <= k < a.len() ==> same_pair(#[trigger] a[k], b[k])
}

/// Puts the pairs in the order of `ordered_ids` (see `reordered`).
pub fn reorder_pairs(config: &mut Config, ordered_ids: &Vec<String>)
    ensures
        final(config).settings == old(config).settings,
        same_pairs(final(config).pairs@, reordered(old(config).pairs@, crate::scan::string_views(ordered_ids@))),
{
    let ghost ids = crate::scan::string_views(ordered_ids@);
    let ghost pairs = config.pairs@;
    let mut out: Vec<SyncPair> = Vec::new();
    let m = ordered_ids.len();
    for t in 0..m
        invariant
            m == ordered_ids@.len(),
            ids == crate::scan::string_views(ordered_ids@),
            pairs == config.pairs@,
            same_pairs(out@, picked(pairs, ids.take(t as int))),
    {
        proof {
            assert(ids.take(t + 1).drop_last() =~= ids.take(t as int));
            assert(ids.take(t + 1).last() == ordered_ids@[t as int]@);
        }
        match copy_last_with_id(&config.pairs, ordered_ids[t].as_str()) {
            Some(p) => {
                out.push(p);
            },
            None => {},
        }
    }
    assert(ids.take(m as int) =~= ids);
    let ghost head = out@.len();
    let ghost pk = |p: SyncPair| !ids.contains(p.id@);
    let n = config.pairs.len();
    for i in 0..n
        invariant
            n == pairs.len(),
            pairs == config.pairs@,
            ids == crate::scan::string_views(ordered_ids@),
            pk == (|p: SyncPair| !ids.contains(p.id@)),
            same_pairs(out@, picked(pairs, ids) + pairs.take(i as int).filter(pk)),
    {
        proof {
            crate::lists::lemma_filter_take_step(pairs, i as int, pk);
        }
        if !contains_id(ordered_ids, config.pairs[i].id.as_str()) {
            let p = config.pairs[i].duplicate();
            proof {
                assert(picked(pairs, ids) + pairs.take(i + 1).filter(pk) =~= (picked(pairs, ids) + pairs.take(
                    i as int,
                ).filter(pk)).push(pairs[i as int]));
            }
            out.push(p);
        }
    }
    assert(pairs.take(n as int) =~= pairs);
    config.pairs = out;
}

/// What the watcher of an updated pair must do.
pub enum WatchChange {
    Keep,
    Stop,
    /// Start watching the new source.
    Start(String),
    /// Stop, then watch the new source.
    Restart(String),
}

/// What the watcher of a pair must do when it goes from (enabled, watched,
/// source) before to after: stop when it was watched and no longer is,
/// start when it now is, restart when the watched source changed.
pub open spec fn watch_change_is(
    c: WatchChange,
    old_enabled: bool,
    old_watch: bool,
    old_source: Seq<char>,
    new_enabled: bool,
    new_watch: bool,
    new_source: Seq<char>,
) -> bool {
    let was = old_enabled && old_watch;
    let will = new_enabled && new_watch;
    if was && !will {
        c is Stop
    } else if !was && will {
        c matches WatchChange::Start(s) && s@ == new_source
    } else if was && will && old_source != new_source {
        c matches WatchChange::Restart(s) && s@ == new_source
    } else {
        c is Keep
    }
}

/// A stored pair after an update: everything from `pair`, but the id and the
/// last run of the stored pair.
pub open spec fn updated_pair(stored: SyncPair, pair: SyncPair) -> SyncPair {
    SyncPair { id: stored.id, last_run: stored.last_run, ..pair }
}

/// Whether `r` and `after` are what replacing the stored pair with the id of
/// `pair` gives: an unknown id is refused and changes nothing; otherwise the
/// first pair with that id becomes `updated_pair`, and the watcher change
/// follows from the old and new settings.
pub open spec fn apply_outcome(r: Result<WatchChange, String>, before: Config, after: Config, pair: SyncPair) -> bool {
    if has_id(before.pairs@, pair.id@) {
        forall|i: int|
            #[trigger] first_with_id(before.pairs@, pair.id@, i) ==> {
                let p = before.pairs@[i];
                &&& after.settings == before.settings
                &&& after.pairs@ == before.pairs@.update(i, updated_pair(p, pair))
                &&& r matches Ok(c) && watch_change_is(
                    c,
                    p.enabled,
                    p.watch_realtime,
                    p.source@,
                    pair.enabled,
                    pair.watch_realtime,
                    pair.source@,
                )
            }
    } else {
        r matches Err(e) && e@ == not_found_text() && after == before
    }
}

/// Replaces the stored pair with the id of `pair` by `pair` (keeping its id
/// and last run); an unknown id is refused and nothing changes.
pub fn apply_pair_update(config: &mut Config, pair: SyncPair) -> (r: Result<WatchChange, String>)
    ensures
        apply_outcome(r, *old(config), *final(config), pair),
        r is Ok <==> has_id(old(config).pairs@, pair.id@),
        !has_id(old(config).pairs@, pair.id@) ==> (r matches Err(e) && e@ == not_found_text() && *final(config)
            == *old(config)),
        forall|i: int|
            first_with_id(old(config).pairs@, pair.id@, i) ==> {
                let p = old(config).pairs@[i];
                &&& final(config).settings == old(config).settings
                &&& final(config).pairs@ == old(config).pairs@.update(i, updated_pair(p, pair))
                &&& r matches Ok(c) && watch_change_is(
                    c,
                    p.enabled,
                    p.watch_realtime,
                    p.source@,
                    pair.enabled,
                    pair.watch_realtime,
                    pair.source@,
                )
            },
{
    match find_pair(&config.pairs, pair.id.as_str()) {
        None => Err("Paire introuvable".to_string()),
        Some(i) => {
            let ghost before = config.pairs@;
            let ghost given = pair;
            let stored = config.pairs.remove(i);
            let was = stored.enabled && stored.watch_realtime;
            let will = pair.enabled && pair.watch_realtime;
            let c = if was && !will {
                WatchChange::Stop
            } else if !was && will {
                WatchChange::Start(pair.source.clone())
            } else if was && will && !str_equal(stored.source.as_str(), pair.source.as_str()) {
                WatchChange::Restart(pair.source.clone())
            } else {
                WatchChange::Keep
            };
            let p = SyncPair { id: stored.id, last_run: stored.last_run, ..pair };
            config.pairs.insert(i, p);
            proof {
                lemma_remove_insert(before, i as int, updated_pair(before[i as int], given));
                assert forall|j: int| first_with_id(before, given.id@, j) implies j == i by {
                    if j < i {
                        assert(before[j].id@ != given.id@);
                    } else if j > i {
                        assert(before[i as int].id@ != given.id@);
                    }
                }
            }
            Ok(c)
        },
    }
}

/// The message for two pairs writing the same archive.
pub fn conflict_message(other: &str) -> (r: String)
    ensures
        r@ == conflict_text(other@),
{
    let mut m = joined("Conflit d'archive avec « ", other);
    push_str(
        &mut m,
        " » (même fichier .zip de destination). Change le nom de l'archive ou la destination.",
    );
    m
}

/// What refuses an update, given whether the folders overlap and, for each
/// pair, whether its archive is the same file (`same`): overlapping folders,
/// then inconsistent size bounds, then an archive shared with another pair.
pub open spec fn update_check(pairs: Seq<SyncPair>, pair: SyncPair, overlap: bool, same: Seq<bool>) -> Option<Seq<char>> {
    if overlap {
        Some(nested_text())
    } else if sizes_inconsistent(pair.min_file_size, pair.max_file_size) {
        Some(size_error_text())
    } else {
        clash_error(pairs, pair.id@, pair, same)
    }
}

/// Whether `r` and `after` are what updating with `pair` gives for the
/// answers `overlap` and `same`: the error of `update_check` with nothing
/// changed, or else `apply_outcome`.
pub open spec fn update_outcome(r: Result<WatchChange, String>, before: Config, after: Config, pair: SyncPair, overlap: bool, same: Seq<bool>) -> bool {
    match update_check(before.pairs@, pair, overlap, same) {
        Some(e) => r matches Err(m) && m@ == e && after == before,
        None => apply_outcome(r, before, after, pair),
    }
}

/// Updates a pair, given whether its folders overlap and, for each stored
/// pair, whether its archive is the same file as that of `pair`.
pub fn update_pair_with(config: &mut Config, pair: SyncPair, overlap: bool, same: &Vec<bool>) -> (r: Result<WatchChange, String>)
    requires
        same@.len() == old(config).pairs@.len(),
    ensures
        update_outcome(r, *old(config), *final(config), pair, overlap, same@),
{
    if overlap {
        return Err("Source et destination imbriquées (interdit)".to_string());
    }
    match validate_size_filter(pair.min_file_size, pair.max_file_size) {
        Err(e) => {
            return Err(e);
        },
        Ok(()) => {},
    }
    match clash_message(&config.pairs, pair.id.as_str(), &pair, same) {
        Some(m) => {
            return Err(m);
        },
        None => {},
    }
    apply_pair_update(config, pair)
}

/// Updates a pair after checking it: overlapping folders (as the file
/// system resolves them) are refused, then inconsistent size bounds, then an
/// archive shared with another pair (compared as paths), then an unknown id.
/// A refused update changes nothing; an accepted one is `apply_pair_update`'s.
/// The result is `update_pair_with`'s for what the file system and the
/// path comparisons answered.
pub fn update_pair(config: &mut Config, pair: SyncPair, resolved: &ResolvedFolders) -> (r: Result<WatchChange, String>)
    ensures
        exists|osep: char, same: Seq<bool>, sep: char|
            (osep == '/' || osep == '\\') && (sep == '/' || sep == '\\') && #[trigger] sound_answers(
                old(config).pairs@,
                pair.id@,
                pair,
                sep,
                same,
            ) && #[trigger] update_outcome(
                r,
                *old(config),
                *final(config),
                pair,
                resolved_overlap(resolved.source@, resolved.destination@, osep),
                same,
            ),
        exists|same: Seq<bool>, sep: char|
            (sep == '/' || sep == '\\') && #[trigger] sound_answers(old(config).pairs@, pair.id@, pair, sep, same)
                && update_outcome(
                r,
                *old(config),
                *final(config),
                pair,
                resolved_overlap(resolved.source@, resolved.destination@, platform_separator()),
                same,
            ),
        r is Err ==> *final(config) == *old(config),
        r matches Err(e) ==> e@ == nested_text() || e@ == size_error_text() || e@ == not_found_text() || exists|
            other: Seq<char>,
        | e@ == conflict_text(other),
        sizes_inconsistent(pair.min_file_size, pair.max_file_size) ==> r is Err,
        !has_id(old(config).pairs@, pair.id@) ==> r is Err,
        forall|i: int|
            first_with_id(old(config).pairs@, pair.id@, i) && r is Ok ==> {
                let p = old(config).pairs@[i];
                &&& final(config).settings == old(config).settings
                &&& final(config).pairs@ == old(config).pairs@.update(i, updated_pair(p, pair))
                &&& r matches Ok(c) && watch_change_is(
                    c,
                    p.enabled,
                    p.watch_realtime,
                    p.source@,
                    pair.enabled,
                    pair.watch_realtime,
                    pair.source@,
                )
            },
{
    let overlap = folders_overlap(resolved);
    let ghost osep = choose|osep: char|
        (osep == '/' || osep == '\\') && overlap == resolved_overlap(resolved.source@, resolved.destination@, osep);
    let same = clash_answers(&config.pairs, pair.id.as_str(), &pair);
    let ghost sep = choose|sep: char| (sep == '/' || sep == '\\') && sound_answers(config.pairs@, pair.id@, pair, sep, same@);
    let ghost before = *config;
    let ghost given = pair;
    let r = update_pair_with(config, pair, overlap, &same);
    proof {
        assert(sound_answers(before.pairs@, given.id@, given, sep, same@));
        assert(overlap == resolved_overlap(resolved.source@, resolved.destination@, osep));
        match update_check(before.pairs@, given, overlap, same@) {
            Some(e) => {},
            None => {
                if has_id(before.pairs@, given.id@) {
                    let j = choose|j: int| 0 <= j < before.pairs@.len() && (#[trigger] before.pairs@[j]).id@ == given.id@;
                    lemma_has_first(before.pairs@, given.id@, j);
                }
            },
        }
        assert(update_outcome(
            r,
            before,
            *config,
            given,
            resolved_overlap(resolved.source@, resolved.destination@, osep),
            same@,
        ));
    }
    r
}

/// The pair made from a new pair and its id: its name is the source when
/// left blank; it has no last run.
pub open spec fn pair_from(new: NewPair, id: String) -> SyncPair {
    SyncPair {
        id,
        name: if trimmed(new.name@).len() == 0 {
            new.source
        } else {
            new.name
        },
        source: new.source,
        destination: new.destination,
        enabled: new.enabled,
        interval_sec_override: new.interval_sec_override,
        notify_pc: new.notify_pc,
        notify_app: new.notify_app,
        ignore_patterns: new.ignore_patterns,
        watch_realtime: new.watch_realtime,
        schedule_times: new.schedule_times,
        min_file_size: new.min_file_size,
        max_file_size: new.max_file_size,
        color: new.color,
        compression: new.compression,
        backup_mode: new.backup_mode,
        last_run: None,
    }
}

/// A fresh random pair id (`uuid::Uuid::new_v4`, hyphenated). Nothing is
/// stated of it: it comes from a random source.
#[verifier::external_body]
fn new_pair_id() -> String {
    uuid::Uuid::new_v4().to_string()
}

/// Builds the pair of `new` under `id`.
fn make_pair(new: NewPair, id: String) -> (r: SyncPair)
    ensures
        r == pair_from(new, id),
{
    let name = if is_blank(new.name.as_str()) {
        new.source.clone()
    } else {
        new.name
    };
    SyncPair {
        id,
        name,
        source: new.source,
        destination: new.destination,
        enabled: new.enabled,
        interval_sec_override: new.interval_sec_override,
        notify_pc: new.notify_pc,
        notify_app: new.notify_app,
        ignore_patterns: new.ignore_patterns,
        watch_realtime: new.watch_realtime,
        schedule_times: new.schedule_times,
        min_file_size: new.min_file_size,
        max_file_size: new.max_file_size,
        color: new.color,
        compression: new.compression,
        backup_mode: new.backup_mode,
        last_run: None,
    }
}

/// The pair made from `new` under `id`, built without consuming `new`.
fn pair_probe(new: &NewPair, id: &String) -> (r: SyncPair)
    ensures
        same_pair(r, pair_from(*new, *id)),
{
    let name = if is_blank(new.name.as_str()) {
        new.source.clone()
    } else {
        new.name.clone()
    };
    SyncPair {
        id: id.clone(),
        name,
        source: new.source.clone(),
        destination: new.destination.clone(),
        enabled: new.enabled,
        interval_sec_override: new.interval_sec_override,
        notify_pc: new.notify_pc,
        notify_app: new.notify_app,
        ignore_patterns: copy_strings(&new.ignore_patterns),
        watch_realtime: new.watch_realtime,
        schedule_times: copy_strings(&new.schedule_times),
        min_file_size: new.min_file_size,
        max_file_size: new.max_file_size,
        color: new.color.clone(),
        compression: new.compression.duplicate(),
        backup_mode: new.backup_mode,
        last_run: None,
    }
}

/// Answers about archive clashes hold alike for two copies of a pair.
proof fn lemma_same_pair_answers(pairs: Seq<SyncPair>, self_id: Seq<char>, a: SyncPair, b: SyncPair, sep: char, same: Seq<bool>)
    requires
        same_pair(a, b),
        sound_answers(pairs, self_id, a, sep, same),
    ensures
        sound_answers(pairs, self_id, b, sep, same),
{
    assert(archive_mode(a) == archive_mode(b));
    assert(archive_path_spec(a, sep) == archive_path_spec(b, sep));
    assert forall|i: int| 0 <= i < pairs.len() implies clash_candidate(#[trigger] pairs[i], self_id, a)
        == clash_candidate(pairs[i], self_id, b) by {}
}

/// What refuses a new pair `pair`, given whether its folders overlap and,
/// for each stored pair, whether its archive is the same file (`same`): a
/// blank source or destination, then overlapping folders, then inconsistent
/// size bounds, then an archive shared with another pair.
pub open spec fn add_check(pairs: Seq<SyncPair>, pair: SyncPair, overlap: bool, same: Seq<bool>) -> Option<Seq<char>> {
    if trimmed(pair.source@).len() == 0 || trimmed(pair.destination@).len() == 0 {
        Some(required_text())
    } else if overlap {
        Some(nested_text())
    } else if sizes_inconsistent(pair.min_file_size, pair.max_file_size) {
        Some(size_error_text())
    } else {
        clash_error(pairs, pair.id@, pair, same)
    }
}

/// Whether `r` and `after` are what adding `new` under `id` gives for the
/// answers `overlap` and `same`: the error of `add_check` with nothing
/// changed, or else the pair appended, its id returned and its watcher
/// started as it asks.
pub open spec fn add_outcome(r: Result<(String, WatchAction), String>, before: Config, after: Config, new: NewPair, id: String, overlap: bool, same: Seq<bool>) -> bool {
    let pair = pair_from(new, id);
    match add_check(before.pairs@, pair, overlap, same) {
        Some(e) => r matches Err(m) && m@ == e && after == before,
        None => r matches Ok(ok) && {
            &&& ok.0 == id
            &&& after.settings == before.settings
            &&& after.pairs@ == before.pairs@.push(pair)
            &&& watch_action_is(ok.1, id@, new.enabled, new.watch_realtime, Some(new.source@))
        },
    }
}

/// Adds `new` under `id`, given whether its folders overlap and, for each
/// stored pair, whether its archive is the same file as that of the new pair.
pub fn add_pair_with(config: &mut Config, new: NewPair, overlap: bool, id: String, same: &Vec<bool>) -> (r: Result<(String, WatchAction), String>)
    requires
        same@.len() == old(config).pairs@.len(),
    ensures
        add_outcome(r, *old(config), *final(config), new, id, overlap, same@),
{
    if is_blank(new.source.as_str()) || is_blank(new.destination.as_str()) {
        return Err("Source et destination requises".to_string());
    }
    if overlap {
        return Err("Source et destination imbriquées (interdit)".to_string());
    }
    match validate_size_filter(new.min_file_size, new.max_file_size) {
        Err(e) => {
            return Err(e);
        },
        Ok(()) => {},
    }
    let ghost gid = id;
    let pair = make_pair(new, id);
    match clash_message(&config.pairs, pair.id.as_str(), &pair, same) {
        Some(m) => {
            return Err(m);
        },
        None => {},
    }
    let action = reconcile_watcher(pair.id.as_str(), pair.enabled, pair.watch_realtime, Some(pair.source.as_str()));
    let rid = pair.id.clone();
    config.pairs.push(pair);
    assert(rid == gid);
    Ok((rid, action))
}

/// Adds a pair after checking it: a blank source or destination is refused,
/// then overlapping folders (as the file system resolves them), then
/// inconsistent size bounds, then an archive shared with another pair
/// (compared as paths). An accepted pair gets a fresh random id, goes to the
/// end of the list, and its watcher follows; the id is returned. The result
/// is `add_pair_with`'s for the id drawn and what the file system and the
/// path comparisons answered.
pub fn add_pair(config: &mut Config, new: NewPair, resolved: &ResolvedFolders) -> (r: Result<(String, WatchAction), String>)
    ensures
        exists|osep: char, id: String, same: Seq<bool>, sep: char|
            (osep == '/' || osep == '\\') && (sep == '/' || sep == '\\') && #[trigger] sound_answers(
                old(config).pairs@,
                id@,
                pair_from(new, id),
                sep,
                same,
            ) && #[trigger] add_outcome(
                r,
                *old(config),
                *final(config),
                new,
                id,
                resolved_overlap(resolved.source@, resolved.destination@, osep),
                same,
            ),
        exists|id: String, same: Seq<bool>, sep: char|
            (sep == '/' || sep == '\\') && #[trigger] sound_answers(old(config).pairs@, id@, pair_from(new, id), sep, same)
                && add_outcome(
                r,
                *old(config),
                *final(config),
                new,
                id,
                resolved_overlap(resolved.source@, resolved.destination@, platform_separator()),
                same,
            ),
        r is Err ==> *final(config) == *old(config),
        trimmed(new.source@).len() == 0 || trimmed(new.destination@).len() == 0 ==> (r matches Err(e) && e@
            == required_text()),
        r matches Err(e) ==> e@ == required_text() || e@ == nested_text() || e@ == size_error_text() || exists|
            other: Seq<char>,
        | e@ == conflict_text(other),
        sizes_inconsistent(new.min_file_size, new.max_file_size) ==> r is Err,
        r matches Ok(ok) ==> {
            &&& final(config).settings == old(config).settings
            &&& final(config).pairs@ == old(config).pairs@.push(pair_from(new, ok.0))
            &&& watch_action_is(ok.1, ok.0@, new.enabled, new.watch_realtime, Some(new.source@))
        },
{
    let overlap = folders_overlap(resolved);
    let ghost osep = choose|osep: char|
        (osep == '/' || osep == '\\') && overlap == resolved_overlap(resolved.source@, resolved.destination@, osep);
    let id = new_pair_id();
    let probe = pair_probe(&new, &id);
    let same = clash_answers(&config.pairs, id.as_str(), &probe);
    let ghost sep = choose|sep: char| (sep == '/' || sep == '\\') && sound_answers(config.pairs@, id@, probe, sep, same@);
    let ghost before = *config;
    let ghost given = new;
    let ghost gid = id;
    proof {
        assert(probe.id@ == id@);
        lemma_same_pair_answers(before.pairs@, id@, probe, pair_from(new, id), sep, same@);
    }
    let r = add_pair_with(config, new, overlap, id, &same);
    proof {
        assert(sound_answers(before.pairs@, gid@, pair_from(given, gid), sep, same@));
        assert(overlap == resolved_overlap(resolved.source@, resolved.destination@, osep));
        assert(add_outcome(r, before, *config, given, gid, overlap, same@));
        assert(add_outcome(
            r,
            before,
            *config,
            given,
            gid,
            resolved_overlap(resolved.source@, resolved.destination@, osep),
            same@,
        ));
    }
    r
}

/// Replaces the settings; the pairs stay.
pub fn update_settings(config: &mut Config, settings: Settings)
    ensures
        final(config).settings == settings,
        final(config).pairs == old(config).pairs,
{
    config.settings = settings;
}

/// Starts or stops the automatic runs, as a persisted setting.
pub fn set_scheduler_running(config: &mut Config, running: bool)
    ensures
        final(config).settings == (Settings { scheduler_running: running, ..old(config).settings }),
        final(config).pairs == old(config).pairs,
{
    config.settings.scheduler_running = running;
}


/// How many times `x` occurs in `s`.
pub open spec fn count_of<A>(s: Seq<A>, x: A) -> nat
    decreases s.len(),
{
    if s.len() == 0 {
        0
    } else {
        count_of(s.drop_last(), x) + if s.last() == x {
            1nat
        } else {
            0nat
        }
    }
}

/// Whether no two pairs share an id.
pub open spec fn ids_unique(pairs: Seq<SyncPair>) -> bool {
    forall|i: int, j: int| 0 <= i < j < pairs.len() ==> pairs[i].id@ != pairs[j].id@
}

/// Counting in a concatenation adds the counts.
proof fn lemma_count_concat<A>(a: Seq<A>, b: Seq<A>, x: A)
    ensures
        count_of(a + b, x) == count_of(a, x) + count_of(b, x),
    decreases b.len(),
{
    if b.len() == 0 {
        assert(a + b =~= a);
    } else {
        lemma_count_concat(a, b.drop_last(), x);
        assert((a + b).drop_last() =~= a + b.drop_last());
    }
}

/// Counting in a filtered sequence.
proof fn lemma_count_filter<A>(s: Seq<A>, pred: spec_fn(A) -> bool, x: A)
    ensures
        count_of(s.filter(pred), x) == if pred(x) { count_of(s, x) } else { 0 },
    decreases s.len(),
{
    reveal(Seq::filter);
    if s.len() > 0 {
        lemma_count_filter(s.drop_last(), pred, x);
        if pred(s.last()) {
            assert(s.filter(pred).drop_last() =~= s.drop_last().filter(pred));
        }
    }
}

/// What `last_with_id` finds has the id, and is one of the pairs.
proof fn lemma_last_with_id(pairs: Seq<SyncPair>, id: Seq<char>)
    ensures
        last_with_id(pairs, id) matches Some(p) ==> p.id@ == id && pairs.contains(p),
        last_with_id(pairs, id) is None ==> forall|i: int| 0 <= i < pairs.len() ==> (#[trigger] pairs[i]).id@ != id,
    decreases pairs.len(),
{
    if pairs.len() > 0 {
        let rest = pairs.drop_last();
        lemma_last_with_id(rest, id);
        if pairs.last().id@ == id {
            assert(pairs[pairs.len() - 1] == pairs.last());
        } else {
            match last_with_id(rest, id) {
                Some(p) => {
                    let k = choose|k: int| 0 <= k < rest.len() && rest[k] == p;
                    assert(pairs[k] == p);
                },
                None => {
                    assert forall|i: int| 0 <= i < pairs.len() implies (#[trigger] pairs[i]).id@ != id by {
                        if i < pairs.len() - 1 {
                            assert(pairs[i] == rest[i]);
                        }
                    }
                },
            }
        }
    }
}

/// With distinct ids, a pair occurs once when it is among the pairs.
proof fn lemma_count_unique(pairs: Seq<SyncPair>, x: SyncPair)
    requires
        ids_unique(pairs),
    ensures
        count_of(pairs, x) == if pairs.contains(x) { 1nat } else { 0nat },
    decreases pairs.len(),
{
    if pairs.len() > 0 {
        let rest = pairs.drop_last();
        assert(ids_unique(rest)) by {
            assert forall|i: int, j: int| 0 <= i < j < rest.len() implies rest[i].id@ != rest[j].id@ by {
                assert(rest[i] == pairs[i] && rest[j] == pairs[j]);
            }
        }
        lemma_count_unique(rest, x);
        if rest.contains(x) {
            let k = choose|k: int| 0 <= k < rest.len() && rest[k] == x;
            assert(pairs[k] == x);
            if pairs.last() == x {
                assert(pairs[k].id@ != pairs[pairs.len() - 1].id@);
            }
        }
        if pairs.contains(x) && !rest.contains(x) {
            let k = choose|k: int| 0 <= k < pairs.len() && pairs[k] == x;
            if k < pairs.len() - 1 {
                assert(rest[k] == x);
            }
        }
        if !pairs.contains(x) {
            if pairs.last() == x {
                assert(pairs[pairs.len() - 1] == x);
            }
            if rest.contains(x) {
                let k = choose|k: int| 0 <= k < rest.len() && rest[k] == x;
                assert(pairs[k] == x);
            }
        }
    }
}

/// With distinct pair ids and distinct requested ids, a pair is picked once
/// when its id is requested, and never otherwise.
proof fn lemma_count_picked(pairs: Seq<SyncPair>, ids: Seq<Seq<char>>, x: SyncPair)
    requires
        ids_unique(pairs),
        ids.no_duplicates(),
    ensures
        count_of(picked(pairs, ids), x) == if pairs.contains(x) && ids.contains(x.id@) { 1nat } else { 0nat },
    decreases ids.len(),
{
    if ids.len() > 0 {
        let rest = ids.drop_last();
        let id = ids.last();
        assert(rest.no_duplicates()) by {
            assert forall|i: int, j: int| 0 <= i < rest.len() && 0 <= j < rest.len() && i != j implies rest[i]
                != rest[j] by {
                assert(rest[i] == ids[i] && rest[j] == ids[j]);
            }
        }
        lemma_count_picked(pairs, rest, x);
        lemma_last_with_id(pairs, id);
        let found = last_with_id(pairs, id);
        let hit = found == Some(x);
        assert(hit <==> (pairs.contains(x) && x.id@ == id)) by {
            if pairs.contains(x) && x.id@ == id {
                let k = choose|k: int| 0 <= k < pairs.len() && pairs[k] == x;
                match found {
                    Some(p) => {
                        let m = choose|m: int| 0 <= m < pairs.len() && pairs[m] == p;
                        if m != k {
                            if m < k {
                                assert(pairs[m].id@ != pairs[k].id@);
                            } else {
                                assert(pairs[k].id@ != pairs[m].id@);
                            }
                        }
                    },
                    None => {
                        assert(pairs[k].id@ != id);
                    },
                }
            }
        }
        let contains_now = ids.contains(x.id@);
        assert(contains_now <==> (rest.contains(x.id@) || id == x.id@)) by {
            crate::lists::lemma_push_contains(rest, id, x.id@);
            assert(rest.push(id) =~= ids);
        }
        if rest.contains(x.id@) && id == x.id@ {
            let k = choose|k: int| 0 <= k < rest.len() && rest[k] == x.id@;
            assert(ids[k] == ids[ids.len() - 1]);
        }
        match found {
            Some(p) => {
                assert(picked(pairs, ids) == picked(pairs, rest).push(p));
                assert(picked(pairs, ids).drop_last() =~= picked(pairs, rest));
            },
            None => {},
        }
    }
}

/// Reordering pairs with distinct ids by a list of distinct ids is a
/// permutation: every pair occurs exactly as often as before.
pub proof fn lemma_reorder_is_permutation(pairs: Seq<SyncPair>, ids: Seq<Seq<char>>, x: SyncPair)
    requires
        ids_unique(pairs),
        ids.no_duplicates(),
    ensures
        count_of(reordered(pairs, ids), x) == count_of(pairs, x),
{
    let pred = |p: SyncPair| !ids.contains(p.id@);
    lemma_count_concat(picked(pairs, ids), pairs.filter(pred), x);
    lemma_count_picked(pairs, ids, x);
    lemma_count_filter(pairs, pred, x);
    lemma_count_unique(pairs, x);
}

/// Whether a pair's id is not `id`.
pub open spec fn id_differs(id: Seq<char>) -> spec_fn(SyncPair) -> bool {
    |p: SyncPair| p.id@ != id
}

/// The pairs whose id is not `id`, in order.
pub open spec fn without_id(pairs: Seq<SyncPair>, id: Seq<char>) -> Seq<SyncPair> {
    pairs.filter(id_differs(id))
}

/// Deleting a pair leaves no pair with its id, and keeps every other pair
/// as often as before.
pub proof fn lemma_deleted_pair_gone(pairs: Seq<SyncPair>, id: Seq<char>, x: SyncPair)
    ensures
        forall|i: int| 0 <= i < without_id(pairs, id).len() ==> (#[trigger] without_id(pairs, id)[i]).id@ != id,
        x.id@ != id ==> count_of(without_id(pairs, id), x) == count_of(pairs, x),
        x.id@ == id ==> count_of(without_id(pairs, id), x) == 0,
{
    let pred = id_differs(id);
    assert forall|i: int| 0 <= i < pairs.filter(pred).len() implies (#[trigger] pairs.filter(pred)[i]).id@ != id by {
        pairs.lemma_filter_pred(pred, i);
    }
    lemma_count_filter(pairs, pred, x);
    assert(without_id(pairs, id) == pairs.filter(pred));
    assert(pred(x) == (x.id@ != id));
}

} // verus!
