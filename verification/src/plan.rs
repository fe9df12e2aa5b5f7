//! Mirror planning: from the entries of the source and of the destination,
//! what to create, copy, overwrite and delete so that the destination
//! becomes a copy of the source, and whether the deletions stay under the
//! safety threshold.
use vstd::prelude::*;
use crate::text::{chars_of, chars_start_with, chars_count, count_char, is_prefix, push_str, trimmed, is_blank, str_equal};
use crate::config::{Settings, SyncPair};
use crate::tree::{keeps_size, within_size_bounds};
use crate::order::{sort_by_keys, sorted_positions, KeyView, SortKey, key_views, is_position_permutation};
use crate::tree::{Entry, Tree, entry_key, lookup_in};
use crate::text::seq_lt;
use crate::paths::{ResolvedFolders, folders_overlap, platform_separator, resolved_overlap};

verus! {

/// Why a file is copied.
#[derive(PartialEq, Eq, Structural, Clone, Copy, Debug)]
pub enum ChangeReason {
    /// Absent from the destination (or present there as a folder).
    New,
    /// Sizes differ.
    Size,
    /// Modification times differ by more than the tolerance.
    Mtime,
    /// Contents differ.
    Content,
}

/// A file to copy from the source to the destination.
pub struct CopyOp {
    pub rel: String,
    pub size: u64,
    pub reason: ChangeReason,
    pub is_new: bool,
}

/// An entry of the destination to delete.
pub struct DeleteOp {
    pub rel: String,
    pub is_dir: bool,
}

/// Everything a mirror pass will do, in the order it does it.
pub struct ExecPlan {
    /// Folders to create, shallowest first.
    pub create_dirs: Vec<String>,
    pub copies: Vec<CopyOp>,
    pub deletes: Vec<DeleteOp>,
    /// Bytes to copy.
    pub total_bytes: u64,
    /// Destination entries absent from the source.
    pub extra_entries: usize,
    /// Destination entries considered.
    pub dest_total: usize,
    /// Share of the destination that would be deleted, in percent (rounded down).
    pub delete_pct: u32,
    /// Whether the deletions are held back by the safety threshold.
    pub aborted_safety: bool,
}

/// |x|
pub open spec fn abs_int(x: int) -> int {
    if x < 0 {
        -x
    } else {
        x
    }
}

/// Whether a destination file differs from the source file, and why: size
/// first, then modification time beyond `tol` seconds, then (when `verify`)
/// differing content digests; two files whose digests are not both known are
/// not told apart by content.
pub open spec fn change_of(src: Entry, dst: Entry, tol: i64, verify: bool) -> Option<ChangeReason> {
    if src.size != dst.size {
        Some(ChangeReason::Size)
    } else if abs_int(src.mtime - dst.mtime) > tol {
        Some(ChangeReason::Mtime)
    } else if verify && src.digest is Some && dst.digest is Some && src.digest.unwrap()
        != dst.digest.unwrap() {
        Some(ChangeReason::Content)
    } else {
        None
    }
}

/// Whether two content digests differ.
fn digests_differ(a: &[u8; 32], b: &[u8; 32]) -> (r: bool)
    ensures
        r == (*a != *b),
{
    for i in 0..32
        invariant
            forall|j: int| 0 <= j < i ==> a@[j] == b@[j],
    {
        if a[i] != b[i] {
            return true;
        }
    }
    assert(a@ =~= b@);
    proof {
        vstd::array::axiom_array_ext_equal(*a, *b);
    }
    false
}

/// Compares a source file with the destination file of the same path.
pub fn detect_changed(src: &Entry, dst: &Entry, tol: i64, verify: bool) -> (r: Option<ChangeReason>)
    ensures
        r == change_of(*src, *dst, tol, verify),
{
    if src.size != dst.size {
        return Some(ChangeReason::Size);
    }
    let diff: i128 = src.mtime as i128 - dst.mtime as i128;
    let adiff: i128 = if diff < 0 { -diff } else { diff };
    if adiff > tol as i128 {
        return Some(ChangeReason::Mtime);
    }
    if verify {
        match (&src.digest, &dst.digest) {
            (Some(a), Some(b)) => {
                if digests_differ(a, b) {
                    return Some(ChangeReason::Content);
                }
            },
            _ => {},
        }
    }
    None
}

/// The destination entry stored under the key of source entry `se`.
pub open spec fn counterpart(se: Entry, dst: Seq<Entry>, fold: bool) -> Option<Entry> {
    lookup_in(dst, fold, entry_key(se.rel@, fold))
}

/// Whether comparing source entry `se` with its destination counterpart
/// `de` needs their content digests: both are files of the same size whose
/// modification times agree within `tol`. A size or time difference settles
/// the comparison without reading either file.
pub open spec fn digest_needed(se: Entry, de: Option<Entry>, tol: i64) -> bool {
    &&& !se.is_dir
    &&& de matches Some(d) && !d.is_dir && se.size == d.size && abs_int(se.mtime - d.mtime) <= tol
}

/// Digests never decide between files that `digest_needed` does not
/// select: the change found is the same without them.
pub proof fn lemma_digest_only_when_needed(se: Entry, de: Entry, tol: i64, verify: bool)
    requires
        !se.is_dir,
        !de.is_dir,
        !digest_needed(se, Some(de), tol),
    ensures
        change_of(se, de, tol, verify) == change_of(
            Entry { digest: None, ..se },
            Entry { digest: None, ..de },
            tol,
            verify,
        ),
{
}

/// The pairs (source position, destination position) of files whose
/// comparison needs content digests (see `digest_needed`), in source order.
pub fn digests_needed(src: &Tree, dst: &Tree, tol: i64) -> (r: Vec<(usize, usize)>)
    requires
        src.wf(),
        dst.wf(),
        src.fold_case() == dst.fold_case(),
    ensures
        forall|k: int|
            0 <= k < r@.len() ==> {
                let (i, j) = #[trigger] r@[k];
                &&& i < src.entries().len()
                &&& j < dst.entries().len()
                &&& counterpart(src.entries()[i as int], dst.entries(), src.fold_case()) == Some(dst.entries()[j as int])
                &&& digest_needed(src.entries()[i as int], Some(dst.entries()[j as int]), tol)
            },
        forall|i: int|
            0 <= i < src.entries().len() && digest_needed(
                src.entries()[i],
                counterpart(src.entries()[i], dst.entries(), src.fold_case()),
                tol,
            ) ==> exists|k: int| 0 <= k < r@.len() && (#[trigger] r@[k]).0 == i,
{
    let ghost fold = src.fold_case();
    let n = src.len();
    let mut r: Vec<(usize, usize)> = Vec::new();
    for i in 0..n
        invariant
            src.wf(),
            dst.wf(),
            fold == src.fold_case(),
            fold == dst.fold_case(),
            n == src.entries().len(),
            forall|k: int|
                0 <= k < r@.len() ==> {
                    let (a, b) = #[trigger] r@[k];
                    &&& a < i
                    &&& b < dst.entries().len()
                    &&& counterpart(src.entries()[a as int], dst.entries(), fold) == Some(dst.entries()[b as int])
                    &&& digest_needed(src.entries()[a as int], Some(dst.entries()[b as int]), tol)
                },
            forall|a: int|
                0 <= a < i && digest_needed(src.entries()[a], counterpart(src.entries()[a], dst.entries(), fold), tol)
                    ==> exists|k: int| 0 <= k < r@.len() && (#[trigger] r@[k]).0 == a,
    {
        let se = src.get(i);
        let key = src.key(i);
        let found = dst.find(key.as_slice());
        let ghost before = r@;
        match found {
            Some(j) => {
                let d = dst.get(j);
                let diff: i128 = se.mtime as i128 - d.mtime as i128;
                let adiff: i128 = if diff < 0 { -diff } else { diff };
                if !se.is_dir && !d.is_dir && se.size == d.size && adiff <= tol as i128 {
                    r.push((i, j));
                    proof {
                        assert(r@[before.len() as int].0 == i);
                    }
                }
                proof {
                    assert forall|a: int|
                        0 <= a < i + 1 && digest_needed(src.entries()[a], counterpart(src.entries()[a], dst.entries(), fold), tol)
                        implies exists|k: int| 0 <= k < r@.len() && (#[trigger] r@[k]).0 == a by {
                        if a < i {
                            let k = choose|k: int| 0 <= k < before.len() && (#[trigger] before[k]).0 == a;
                            assert(r@[k] == before[k]);
                        } else {
                            assert(r@[before.len() as int].0 == i);
                        }
                    }
                }
            },
            None => {
                proof {
                    assert forall|a: int|
                        0 <= a < i + 1 && digest_needed(src.entries()[a], counterpart(src.entries()[a], dst.entries(), fold), tol)
                        implies exists|k: int| 0 <= k < r@.len() && (#[trigger] r@[k]).0 == a by {
                        if a < i {
                            let k = choose|k: int| 0 <= k < before.len() && (#[trigger] before[k]).0 == a;
                        }
                    }
                }
            },
        }
    }
    r
}

/// The folder to create for source entry `se`: a source folder with no
/// folder at the same path in the destination.
pub open spec fn dir_item(se: Entry, de: Option<Entry>) -> Seq<String> {
    if se.is_dir && !(de is Some && de.unwrap().is_dir) {
        seq![se.rel]
    } else {
        seq![]
    }
}

/// The copy for source entry `se`: a source file is copied when the
/// destination has nothing or a folder at its path (as new), or a file that
/// differs (as an update).
pub open spec fn copy_item(se: Entry, de: Option<Entry>, tol: i64, verify: bool) -> Seq<CopyOp> {
    if se.is_dir {
        seq![]
    } else {
        match de {
            None => seq![CopyOp { rel: se.rel, size: se.size, reason: ChangeReason::New, is_new: true }],
            Some(d) => if d.is_dir {
                seq![CopyOp { rel: se.rel, size: se.size, reason: ChangeReason::New, is_new: true }]
            } else {
                match change_of(se, d, tol, verify) {
                    Some(r) => seq![CopyOp { rel: se.rel, size: se.size, reason: r, is_new: false }],
                    None => seq![],
                }
            },
        }
    }
}

/// The deletion for source entry `se`: a destination entry of the other kind
/// (file against folder) at the same path.
pub open spec fn conflict_item(se: Entry, de: Option<Entry>) -> Seq<DeleteOp> {
    match de {
        Some(d) => if d.is_dir != se.is_dir {
            seq![DeleteOp { rel: se.rel, is_dir: d.is_dir }]
        } else {
            seq![]
        },
        None => seq![],
    }
}

/// Folders to create for the source entries `src`, in their order.
pub open spec fn planned_dirs(src: Seq<Entry>, dst: Seq<Entry>, fold: bool) -> Seq<String>
    decreases src.len(),
{
    if src.len() == 0 {
        seq![]
    } else {
        planned_dirs(src.drop_last(), dst, fold) + dir_item(src.last(), counterpart(src.last(), dst, fold))
    }
}

/// Copies for the source entries `src`, in their order.
pub open spec fn planned_copies(src: Seq<Entry>, dst: Seq<Entry>, fold: bool, tol: i64, verify: bool) -> Seq<CopyOp>
    decreases src.len(),
{
    if src.len() == 0 {
        seq![]
    } else {
        planned_copies(src.drop_last(), dst, fold, tol, verify) + copy_item(
            src.last(),
            counterpart(src.last(), dst, fold),
            tol,
            verify,
        )
    }
}

/// Deletions of entries of the other kind, for the source entries `src`.
pub open spec fn planned_conflicts(src: Seq<Entry>, dst: Seq<Entry>, fold: bool) -> Seq<DeleteOp>
    decreases src.len(),
{
    if src.len() == 0 {
        seq![]
    } else {
        planned_conflicts(src.drop_last(), dst, fold) + conflict_item(
            src.last(),
            counterpart(src.last(), dst, fold),
        )
    }
}

/// Total size of a list of copies.
pub open spec fn copy_bytes(copies: Seq<CopyOp>) -> int
    decreases copies.len(),
{
    if copies.len() == 0 {
        0
    } else {
        copy_bytes(copies.drop_last()) + copies.last().size
    }
}

/// Total size of the files among `entries`.
pub open spec fn file_bytes(entries: Seq<Entry>) -> int
    decreases entries.len(),
{
    if entries.len() == 0 {
        0
    } else {
        file_bytes(entries.drop_last()) + if entries.last().is_dir {
            0
        } else {
            entries.last().size as int
        }
    }
}

/// Destination entries with no source entry under the same key, in key order.
pub open spec fn extras_of(dst: Seq<Entry>, src: Seq<Entry>, fold: bool) -> Seq<Entry> {
    dst.filter(|e: Entry| lookup_in(src, fold, entry_key(e.rel@, fold)) is None)
}

/// Sort keys ordering entries by relative path.
pub open spec fn rel_keys(s: Seq<Entry>) -> Seq<KeyView> {
    s.map_values(|e: Entry| (0u64, e.rel@))
}

/// The entries of `s` sorted by relative path (stable).
pub open spec fn sorted_by_rel(s: Seq<Entry>) -> Seq<Entry> {
    sorted_positions(rel_keys(s)).map_values(|i: usize| s[i as int])
}

/// Deletions for extra entries sorted by path: an entry is skipped when its
/// path lies under the last entry kept for deletion (deleting that entry
/// deletes it too). Also returns the path of the last entry kept.
pub open spec fn pruned(s: Seq<Entry>) -> (Seq<DeleteOp>, Option<Seq<char>>)
    decreases s.len(),
{
    if s.len() == 0 {
        (seq![], None)
    } else {
        let (d, root) = pruned(s.drop_last());
        let e = s.last();
        let covered = match root {
            Some(r) => is_prefix(r.push('/'), e.rel@),
            None => false,
        };
        if covered {
            (d, root)
        } else {
            (d.push(DeleteOp { rel: e.rel, is_dir: e.is_dir }), Some(e.rel@))
        }
    }
}

/// The depth of a relative path: its number of `/`.
pub open spec fn depth_keys(s: Seq<String>) -> Seq<KeyView> {
    s.map_values(|r: String| (count_char(r@, '/') as u64, Seq::<char>::empty()))
}

/// Folders sorted by depth, shallowest first, keeping their order otherwise.
pub open spec fn sorted_by_depth(s: Seq<String>) -> Seq<String> {
    sorted_positions(depth_keys(s)).map_values(|i: usize| s[i as int])
}

/// Whether path `child` lies strictly under folder `parent`.
pub open spec fn lies_under(child: Seq<char>, parent: Seq<char>) -> bool {
    is_prefix(parent.push('/'), child)
}

/// Sort keys ordering deletions deepest first (most `/` first).
pub open spec fn depth_desc_keys(s: Seq<DeleteOp>) -> Seq<KeyView> {
    s.map_values(|d: DeleteOp| ((u64::MAX - count_char(d.rel@, '/')) as u64, Seq::<char>::empty()))
}

/// Deletions sorted deepest first, keeping their order otherwise.
pub open spec fn deepest_first(s: Seq<DeleteOp>) -> Seq<DeleteOp> {
    sorted_positions(depth_desc_keys(s)).map_values(|i: usize| s[i as int])
}

/// Whether no deletion comes before a deletion of something under it: each
/// entry is deleted before the folders that hold it.
pub open spec fn children_first(s: Seq<DeleteOp>) -> bool {
    forall|i: int, j: int| 0 <= i < j < s.len() ==> !lies_under(#[trigger] s[j].rel@, #[trigger] s[i].rel@)
}

/// A prefix holds no more occurrences of a character than the whole.
proof fn lemma_count_prefix(s: Seq<char>, i: int, c: char)
    requires
        0 <= i <= s.len(),
    ensures
        count_char(s.take(i), c) <= count_char(s, c),
    decreases s.len(),
{
    if i == s.len() {
        assert(s.take(i) =~= s);
    } else {
        assert(s.drop_last().take(i) =~= s.take(i));
        lemma_count_prefix(s.drop_last(), i, c);
    }
}

/// A path under a folder has more `/` than the folder.
proof fn lemma_under_deeper(child: Seq<char>, parent: Seq<char>)
    requires
        lies_under(child, parent),
    ensures
        count_char(child, '/') > count_char(parent, '/'),
{
    let q = parent.push('/');
    assert(child.take(q.len() as int) =~= q);
    assert(q.drop_last() =~= parent);
    lemma_count_prefix(child, q.len() as int, '/');
}

/// Whether some entry of `es` has the path `r`.
pub open spec fn listed_rel(es: Seq<Entry>, r: Seq<char>) -> bool {
    exists|i: int| 0 <= i < es.len() && (#[trigger] es[i]).rel@ == r
}

/// Whether every path a plan touches is listed: folders to create and
/// copies come from the source listing, deletions from the source or the
/// destination listing. An entry left out of both listings (an ignored one)
/// is never touched.
pub open spec fn items_listed(plan: ExecPlan, src: Seq<Entry>, dst: Seq<Entry>) -> bool {
    &&& forall|k: int| 0 <= k < plan.create_dirs@.len() ==> listed_rel(src, (#[trigger] plan.create_dirs@[k])@)
    &&& forall|k: int| 0 <= k < plan.copies@.len() ==> listed_rel(src, (#[trigger] plan.copies@[k]).rel@)
    &&& forall|k: int|
        0 <= k < plan.deletes@.len() ==> listed_rel(src, (#[trigger] plan.deletes@[k]).rel@) || listed_rel(
            dst,
            plan.deletes@[k].rel@,
        )
}

/// Whether some deletion of `ds` has the path `r`.
pub open spec fn delete_listed(ds: Seq<DeleteOp>, r: Seq<char>) -> bool {
    exists|t: int| 0 <= t < ds.len() && (#[trigger] ds[t]).rel@ == r
}

/// Whether some text of `ts` is `r`.
pub open spec fn text_listed(ts: Seq<String>, r: Seq<char>) -> bool {
    exists|t: int| 0 <= t < ts.len() && (#[trigger] ts[t])@ == r
}

/// A path listed in a listing stays listed once entries are added at the end.
proof fn lemma_listed_prefix(es: Seq<Entry>, k: int, r: Seq<char>)
    requires
        0 <= k <= es.len(),
        listed_rel(es.take(k), r),
    ensures
        listed_rel(es, r),
{
    let i = choose|i: int| 0 <= i < es.take(k).len() && (#[trigger] es.take(k)[i]).rel@ == r;
    assert(es[i] == es.take(k)[i]);
}

/// What is planned for some source entries comes from those entries.
proof fn lemma_planned_listed(s: Seq<Entry>, d: Seq<Entry>, fold: bool, tol: i64, verify: bool)
    ensures
        forall|k: int|
            0 <= k < planned_dirs(s, d, fold).len() ==> listed_rel(s, (#[trigger] planned_dirs(s, d, fold)[k])@),
        forall|k: int|
            0 <= k < planned_copies(s, d, fold, tol, verify).len() ==> listed_rel(
                s,
                (#[trigger] planned_copies(s, d, fold, tol, verify)[k]).rel@,
            ),
        forall|k: int|
            0 <= k < planned_conflicts(s, d, fold).len() ==> listed_rel(
                s,
                (#[trigger] planned_conflicts(s, d, fold)[k]).rel@,
            ),
    decreases s.len(),
{
    if s.len() > 0 {
        let r = s.drop_last();
        let e = s.last();
        lemma_planned_listed(r, d, fold, tol, verify);
        assert(s[s.len() - 1] == e);
        assert(r =~= s.take(s.len() - 1));
        let cp = counterpart(e, d, fold);
        let pd = planned_dirs(r, d, fold);
        assert forall|k: int| 0 <= k < planned_dirs(s, d, fold).len() implies listed_rel(
            s,
            (#[trigger] planned_dirs(s, d, fold)[k])@,
        ) by {
            if k < pd.len() {
                assert(planned_dirs(s, d, fold)[k] == pd[k]);
                lemma_listed_prefix(s, s.len() - 1, pd[k]@);
            } else {
                assert(planned_dirs(s, d, fold)[k] == e.rel);
            }
        }
        let pc = planned_copies(r, d, fold, tol, verify);
        assert forall|k: int| 0 <= k < planned_copies(s, d, fold, tol, verify).len() implies listed_rel(
            s,
            (#[trigger] planned_copies(s, d, fold, tol, verify)[k]).rel@,
        ) by {
            if k < pc.len() {
                assert(planned_copies(s, d, fold, tol, verify)[k] == pc[k]);
                lemma_listed_prefix(s, s.len() - 1, pc[k].rel@);
            } else {
                assert(planned_copies(s, d, fold, tol, verify)[k].rel == e.rel);
            }
        }
        let pf = planned_conflicts(r, d, fold);
        assert forall|k: int| 0 <= k < planned_conflicts(s, d, fold).len() implies listed_rel(
            s,
            (#[trigger] planned_conflicts(s, d, fold)[k]).rel@,
        ) by {
            if k < pf.len() {
                assert(planned_conflicts(s, d, fold)[k] == pf[k]);
                lemma_listed_prefix(s, s.len() - 1, pf[k].rel@);
            } else {
                assert(planned_conflicts(s, d, fold)[k].rel == e.rel);
            }
        }
    }
}

/// The deletions kept when pruning come from the pruned entries.
proof fn lemma_pruned_listed(es: Seq<Entry>)
    ensures
        forall|k: int| 0 <= k < pruned(es).0.len() ==> listed_rel(es, (#[trigger] pruned(es).0[k]).rel@),
    decreases es.len(),
{
    if es.len() > 0 {
        let r = es.drop_last();
        lemma_pruned_listed(r);
        assert(r =~= es.take(es.len() - 1));
        let pr = pruned(r).0;
        assert forall|k: int| 0 <= k < pruned(es).0.len() implies listed_rel(es, (#[trigger] pruned(es).0[k]).rel@) by {
            if k < pr.len() {
                assert(pruned(es).0[k] == pr[k]);
                lemma_listed_prefix(es, es.len() - 1, pr[k].rel@);
            } else {
                assert(pruned(es).0[k].rel == es.last().rel);
                assert(es[es.len() - 1] == es.last());
            }
        }
    }
}

/// The share of `total` that `part` represents, in percent, rounded down; 0
/// when `total` is 0.
pub open spec fn percent_of(part: int, total: int) -> int {
    if total > 0 {
        part * 100 / total
    } else {
        0
    }
}

/// Whether deletions are held back: some would happen and their share exceeds
/// a threshold below 100.
pub open spec fn held_back(extra: int, pct: int, threshold: u32) -> bool {
    extra > 0 && threshold < 100 && pct > threshold
}

/// One line of a plan preview.
pub struct PlanItem {
    pub rel: String,
    pub is_dir: bool,
    pub size: u64,
    pub reason: String,
}

/// A plan preview: what a pass would create, copy, overwrite and delete.
pub struct SyncPlan {
    pub to_create_dir: Vec<String>,
    pub to_copy: Vec<PlanItem>,
    pub to_overwrite: Vec<PlanItem>,
    pub to_delete: Vec<PlanItem>,
    pub total_bytes: u64,
    pub delete_pct: u32,
    pub aborted_safety: bool,
}

impl SyncPlan {
    /// An empty preview.
    pub fn empty() -> (r: SyncPlan)
        ensures
            r.to_create_dir@.len() == 0,
            r.to_copy@.len() == 0,
            r.to_overwrite@.len() == 0,
            r.to_delete@.len() == 0,
            r.total_bytes == 0,
            r.delete_pct == 0,
            !r.aborted_safety,
    {
        SyncPlan {
            to_create_dir: Vec::new(),
            to_copy: Vec::new(),
            to_overwrite: Vec::new(),
            to_delete: Vec::new(),
            total_bytes: 0,
            delete_pct: 0,
            aborted_safety: false,
        }
    }
}

/// The word shown for a copy reason.
pub open spec fn reason_text(r: ChangeReason) -> Seq<char> {
    match r {
        ChangeReason::New => "new"@,
        ChangeReason::Size => "size"@,
        ChangeReason::Mtime => "mtime"@,
        ChangeReason::Content => "content"@,
    }
}

/// The word shown for a copy reason.
pub fn reason_string(r: ChangeReason) -> (s: String)
    ensures
        s@ == reason_text(r),
{
    match r {
        ChangeReason::New => "new".to_string(),
        ChangeReason::Size => "size".to_string(),
        ChangeReason::Mtime => "mtime".to_string(),
        ChangeReason::Content => "content".to_string(),
    }
}

/// The preview line of a copy.
pub open spec fn copy_line(item: PlanItem, c: CopyOp) -> bool {
    item.rel == c.rel && !item.is_dir && item.size == c.size && item.reason@ == reason_text(c.reason)
}

/// The preview line of a deletion.
pub open spec fn delete_line(item: PlanItem, d: DeleteOp) -> bool {
    item.rel == d.rel && item.is_dir == d.is_dir && item.size == 0 && item.reason@ == "extra"@
}

/// The preview of a plan: new files under `to_copy`, updated ones under
/// `to_overwrite`, each in plan order, deletions under `to_delete`.
pub fn plan_to_dto(plan: &ExecPlan) -> (r: SyncPlan)
    ensures
        r.to_create_dir@ == plan.create_dirs@,
        r.to_copy@.len() == plan.copies@.filter(|c: CopyOp| c.is_new).len(),
        forall|k: int|
            0 <= k < r.to_copy@.len() ==> copy_line(
                #[trigger] r.to_copy@[k],
                plan.copies@.filter(|c: CopyOp| c.is_new)[k],
            ),
        r.to_overwrite@.len() == plan.copies@.filter(|c: CopyOp| !c.is_new).len(),
        forall|k: int|
            0 <= k < r.to_overwrite@.len() ==> copy_line(
                #[trigger] r.to_overwrite@[k],
                plan.copies@.filter(|c: CopyOp| !c.is_new)[k],
            ),
        r.to_delete@.len() == plan.deletes@.len(),
        forall|k: int| 0 <= k < r.to_delete@.len() ==> delete_line(#[trigger] r.to_delete@[k], plan.deletes@[k]),
        r.total_bytes == plan.total_bytes,
        r.delete_pct == plan.delete_pct,
        r.aborted_safety == plan.aborted_safety,
{
    let ghost is_new = |c: CopyOp| c.is_new;
    let ghost is_old = |c: CopyOp| !c.is_new;
    let mut to_copy: Vec<PlanItem> = Vec::new();
    let mut to_overwrite: Vec<PlanItem> = Vec::new();
    let n = plan.copies.len();
    for i in 0..n
        invariant
            n == plan.copies@.len(),
            is_new == (|c: CopyOp| c.is_new),
            is_old == (|c: CopyOp| !c.is_new),
            to_copy@.len() == plan.copies@.take(i as int).filter(is_new).len(),
            forall|k: int|
                0 <= k < to_copy@.len() ==> copy_line(
                    #[trigger] to_copy@[k],
                    plan.copies@.take(i as int).filter(is_new)[k],
                ),
            to_overwrite@.len() == plan.copies@.take(i as int).filter(is_old).len(),
            forall|k: int|
                0 <= k < to_overwrite@.len() ==> copy_line(
                    #[trigger] to_overwrite@[k],
                    plan.copies@.take(i as int).filter(is_old)[k],
                ),
    {
        let c = &plan.copies[i];
        let item = PlanItem { rel: c.rel.clone(), is_dir: false, size: c.size, reason: reason_string(c.reason) };
        proof {
            let s1 = plan.copies@.take(i + 1);
            assert(s1.drop_last() =~= plan.copies@.take(i as int));
            assert(s1.last() == *c);
            reveal(Seq::filter);
            assert(s1.filter(is_new) == if is_new(s1.last()) {
                s1.drop_last().filter(is_new).push(s1.last())
            } else {
                s1.drop_last().filter(is_new)
            });
            assert(s1.filter(is_old) == if is_old(s1.last()) {
                s1.drop_last().filter(is_old).push(s1.last())
            } else {
                s1.drop_last().filter(is_old)
            });
        }
        if c.is_new {
            to_copy.push(item);
        } else {
            to_overwrite.push(item);
        }
    }
    assert(plan.copies@.take(n as int) =~= plan.copies@);
    let mut to_delete: Vec<PlanItem> = Vec::new();
    let m = plan.deletes.len();
    for i in 0..m
        invariant
            m == plan.deletes@.len(),
            to_delete@.len() == i,
            forall|k: int| 0 <= k < i ==> delete_line(#[trigger] to_delete@[k], plan.deletes@[k]),
    {
        let d = &plan.deletes[i];
        to_delete.push(PlanItem { rel: d.rel.clone(), is_dir: d.is_dir, size: 0, reason: "extra".to_string() });
    }
    let mut to_create_dir: Vec<String> = Vec::new();
    let q = plan.create_dirs.len();
    for i in 0..q
        invariant
            q == plan.create_dirs@.len(),
            to_create_dir@ == plan.create_dirs@.take(i as int),
    {
        to_create_dir.push(plan.create_dirs[i].clone());
        assert(to_create_dir@ =~= plan.create_dirs@.take(i + 1));
    }
    assert(plan.create_dirs@.take(q as int) =~= plan.create_dirs@);
    SyncPlan {
        to_create_dir,
        to_copy,
        to_overwrite,
        to_delete,
        total_bytes: plan.total_bytes,
        delete_pct: plan.delete_pct,
        aborted_safety: plan.aborted_safety,
    }
}

/// Whether content digests take part in change detection.
pub open spec fn verifies_content(settings: Settings) -> bool {
    settings.verify_by_content@ == "blake3"@
}

/// The entries of a listing within a pair's size bounds.
pub open spec fn sized(entries: Seq<Entry>, pair: SyncPair) -> Seq<Entry> {
    entries.filter(|e: Entry| keeps_size(e, pair.min_file_size, pair.max_file_size))
}

/// Whether `plan` is the mirror plan of a pair for the given source and
/// destination listings (after the pair's size bounds).
pub open spec fn is_pair_plan(plan: ExecPlan, pair: SyncPair, settings: Settings, src: Seq<Entry>, dst: Seq<Entry>, fold: bool) -> bool {
    let s = sized(src, pair);
    let d = sized(dst, pair);
    let tol = settings.mtime_tolerance_sec;
    let verify = verifies_content(settings);
    &&& plan.create_dirs@ == sorted_by_depth(planned_dirs(s, d, fold))
    &&& plan.copies@ == planned_copies(s, d, fold, tol, verify)
    &&& plan.deletes@ == deepest_first(planned_conflicts(s, d, fold) + pruned(sorted_by_rel(extras_of(d, s, fold))).0)
    &&& children_first(plan.deletes@)
    &&& items_listed(plan, s, d)
    &&& plan.total_bytes == copy_bytes(plan.copies@)
    &&& plan.extra_entries == extras_of(d, s, fold).len()
    &&& plan.dest_total == d.len()
    &&& plan.delete_pct == percent_of(plan.extra_entries as int, plan.dest_total as int)
    &&& plan.aborted_safety == held_back(plan.extra_entries as int, plan.delete_pct as int, settings.delete_safety_threshold_pct)
}

/// The size bounds never let more bytes through.
proof fn lemma_file_bytes_filter(s: Seq<Entry>, min: u64, max: u64)
    ensures
        file_bytes(s.filter(|e: Entry| keeps_size(e, min, max))) <= file_bytes(s),
    decreases s.len(),
{
    reveal(Seq::filter);
    if s.len() > 0 {
        lemma_file_bytes_filter(s.drop_last(), min, max);
        let f = s.filter(|e: Entry| keeps_size(e, min, max));
        let fp = s.drop_last().filter(|e: Entry| keeps_size(e, min, max));
        if keeps_size(s.last(), min, max) {
            assert(f == fp.push(s.last()));
            assert(f.drop_last() =~= fp);
        } else {
            assert(f == fp);
        }
    }
}

/// The mirror plan of a pair from the listings of its source and destination.
pub fn plan_for_pair(pair: &SyncPair, settings: &Settings, src: &Tree, dst: &Tree) -> (plan: ExecPlan)
    requires
        src.wf(),
        dst.wf(),
        src.fold_case() == dst.fold_case(),
        file_bytes(src.entries()) <= u64::MAX,
    ensures
        is_pair_plan(plan, *pair, *settings, src.entries(), dst.entries(), src.fold_case()),
{
    let s = src.retain_sizes(pair.min_file_size, pair.max_file_size);
    let d = dst.retain_sizes(pair.min_file_size, pair.max_file_size);
    proof {
        lemma_file_bytes_filter(src.entries(), pair.min_file_size, pair.max_file_size);
    }
    let verify = str_equal(settings.verify_by_content.as_str(), "blake3");
    plan_trees(&s, &d, settings.mtime_tolerance_sec, verify, settings.delete_safety_threshold_pct)
}

/// The message for a pair with a blank source or destination.
pub open spec fn msg_blank() -> Seq<char> {
    "Source ou destination vide"@
}

/// The message for a pair whose folders overlap.
pub open spec fn msg_nested() -> Seq<char> {
    "Source et destination imbriquées (interdit)"@
}

/// The message for a pair whose source is missing.
pub open spec fn msg_missing_source(source: Seq<char>) -> Seq<char> {
    "Source introuvable : "@ + source + " (synchro annulée pour éviter d'effacer la destination)"@
}

/// What stops a pair from being planned, given what the file system
/// answered: a blank source or destination, then overlapping folders, then a
/// missing source; nothing otherwise.
pub open spec fn check_pair_spec(pair: SyncPair, overlap: bool, source_exists: bool) -> Option<Seq<char>> {
    if trimmed(pair.source@).len() == 0 || trimmed(pair.destination@).len() == 0 {
        Some(msg_blank())
    } else if overlap {
        Some(msg_nested())
    } else if !source_exists {
        Some(msg_missing_source(pair.source@))
    } else {
        None
    }
}

/// The error that stops a pair from being planned (see `check_pair_spec`),
/// given whether its folders overlap and whether its source exists.
pub fn check_pair(pair: &SyncPair, overlap: bool, source_exists: bool) -> (r: Option<String>)
    ensures
        crate::outcome::opt_view(r) == check_pair_spec(*pair, overlap, source_exists),
{
    if is_blank(pair.source.as_str()) || is_blank(pair.destination.as_str()) {
        return Some("Source ou destination vide".to_string());
    }
    if overlap {
        return Some("Source et destination imbriquées (interdit)".to_string());
    }
    if !source_exists {
        let mut m = "Source introuvable : ".to_string();
        push_str(&mut m, pair.source.as_str());
        push_str(&mut m, " (synchro annulée pour éviter d'effacer la destination)");
        return Some(m);
    }
    None
}

/// Whether `r` is what planning a pair gives for the file system answers
/// `overlap` and `source_exists`: the error of `check_pair_spec`, or else the
/// pair's mirror plan.
pub open spec fn plan_result(r: Result<ExecPlan, String>, pair: SyncPair, settings: Settings, src: Seq<Entry>, dst: Seq<Entry>, fold: bool, overlap: bool, source_exists: bool) -> bool {
    match r {
        Ok(plan) => check_pair_spec(pair, overlap, source_exists) is None && is_pair_plan(plan, pair, settings, src, dst, fold),
        Err(e) => check_pair_spec(pair, overlap, source_exists) == Some(e@),
    }
}

/// The mirror plan of a pair, after checking it: a blank source or
/// destination is refused; so are overlapping folders (compared in their
/// resolved forms `resolved`) and a missing source (`source_exists`), as
/// the file system answered. Otherwise the plan is `plan_for_pair`'s.
pub fn build_plan(pair: &SyncPair, settings: &Settings, src: &Tree, dst: &Tree, resolved: &ResolvedFolders, source_exists: bool) -> (r: Result<ExecPlan, String>)
    requires
        src.wf(),
        dst.wf(),
        src.fold_case() == dst.fold_case(),
        file_bytes(src.entries()) <= u64::MAX,
    ensures
        exists|sep: char|
            (sep == '/' || sep == '\\') && #[trigger] plan_result(
                r,
                *pair,
                *settings,
                src.entries(),
                dst.entries(),
                src.fold_case(),
                resolved_overlap(resolved.source@, resolved.destination@, sep),
                source_exists,
            ),
        plan_result(
            r,
            *pair,
            *settings,
            src.entries(),
            dst.entries(),
            src.fold_case(),
            resolved_overlap(resolved.source@, resolved.destination@, platform_separator()),
            source_exists,
        ),
        trimmed(pair.source@).len() == 0 || trimmed(pair.destination@).len() == 0 ==> (r matches Err(e)
            && e@ == msg_blank()),
{
    let overlap = folders_overlap(resolved);
    let ghost sep = choose|sep: char|
        (sep == '/' || sep == '\\') && overlap == resolved_overlap(resolved.source@, resolved.destination@, sep);
    let r = match check_pair(pair, overlap, source_exists) {
        Some(e) => Err(e),
        None => Ok(plan_for_pair(pair, settings, src, dst)),
    };
    assert(plan_result(
        r,
        *pair,
        *settings,
        src.entries(),
        dst.entries(),
        src.fold_case(),
        resolved_overlap(resolved.source@, resolved.destination@, sep),
        source_exists,
    ));
    r
}

/// Whether `r` is what previewing a pair gives for the file system answers
/// `overlap` and `source_exists`: the error of `check_pair_spec`, or else the
/// preview of the pair's mirror plan.
pub open spec fn preview_result(r: Result<SyncPlan, String>, pair: SyncPair, settings: Settings, src: Seq<Entry>, dst: Seq<Entry>, fold: bool, overlap: bool, source_exists: bool) -> bool {
    match r {
        Ok(preview) => check_pair_spec(pair, overlap, source_exists) is None && exists|plan: ExecPlan|
            #[trigger] is_pair_plan(plan, pair, settings, src, dst, fold) && dto_of(preview, plan),
        Err(e) => check_pair_spec(pair, overlap, source_exists) == Some(e@),
    }
}

/// The preview of a pair's mirror pass (see `build_plan`).
pub fn dry_run(pair: &SyncPair, settings: &Settings, src: &Tree, dst: &Tree, resolved: &ResolvedFolders, source_exists: bool) -> (r: Result<SyncPlan, String>)
    requires
        src.wf(),
        dst.wf(),
        src.fold_case() == dst.fold_case(),
        file_bytes(src.entries()) <= u64::MAX,
    ensures
        exists|sep: char|
            (sep == '/' || sep == '\\') && #[trigger] preview_result(
                r,
                *pair,
                *settings,
                src.entries(),
                dst.entries(),
                src.fold_case(),
                resolved_overlap(resolved.source@, resolved.destination@, sep),
                source_exists,
            ),
        preview_result(
            r,
            *pair,
            *settings,
            src.entries(),
            dst.entries(),
            src.fold_case(),
            resolved_overlap(resolved.source@, resolved.destination@, platform_separator()),
            source_exists,
        ),
        trimmed(pair.source@).len() == 0 || trimmed(pair.destination@).len() == 0 ==> (r matches Err(e)
            && e@ == msg_blank()),
{
    let planned = build_plan(pair, settings, src, dst, resolved, source_exists);
    let ghost sep = choose|sep: char|
        (sep == '/' || sep == '\\') && #[trigger] plan_result(
            planned,
            *pair,
            *settings,
            src.entries(),
            dst.entries(),
            src.fold_case(),
            resolved_overlap(resolved.source@, resolved.destination@, sep),
            source_exists,
        );
    match planned {
        Ok(plan) => {
            let dto = plan_to_dto(&plan);
            assert(is_pair_plan(plan, *pair, *settings, src.entries(), dst.entries(), src.fold_case())
                && dto_of(dto, plan));
            let r = Ok(dto);
            assert(preview_result(r, *pair, *settings, src.entries(), dst.entries(), src.fold_case(), resolved_overlap(resolved.source@, resolved.destination@, sep), source_exists));
            r
        },
        Err(e) => {
            let r = Err(e);
            assert(preview_result(r, *pair, *settings, src.entries(), dst.entries(), src.fold_case(), resolved_overlap(resolved.source@, resolved.destination@, sep), source_exists));
            r
        },
    }
}

/// Whether `r` is the preview of `plan` (see `plan_to_dto`).
pub open spec fn dto_of(r: SyncPlan, plan: ExecPlan) -> bool {
    &&& r.to_create_dir@ == plan.create_dirs@
    &&& r.to_copy@.len() == plan.copies@.filter(|c: CopyOp| c.is_new).len()
    &&& forall|k: int|
        0 <= k < r.to_copy@.len() ==> copy_line(
            #[trigger] r.to_copy@[k],
            plan.copies@.filter(|c: CopyOp| c.is_new)[k],
        )
    &&& r.to_overwrite@.len() == plan.copies@.filter(|c: CopyOp| !c.is_new).len()
    &&& forall|k: int|
        0 <= k < r.to_overwrite@.len() ==> copy_line(
            #[trigger] r.to_overwrite@[k],
            plan.copies@.filter(|c: CopyOp| !c.is_new)[k],
        )
    &&& r.to_delete@.len() == plan.deletes@.len()
    &&& forall|k: int| 0 <= k < r.to_delete@.len() ==> delete_line(#[trigger] r.to_delete@[k], plan.deletes@[k])
    &&& r.total_bytes == plan.total_bytes
    &&& r.delete_pct == plan.delete_pct
    &&& r.aborted_safety == plan.aborted_safety
}

/// Adding one item to a list of copies adds its size.
proof fn lemma_copy_bytes_append(a: Seq<CopyOp>, b: Seq<CopyOp>)
    requires
        b.len() <= 1,
    ensures
        copy_bytes(a + b) == copy_bytes(a) + copy_bytes(b),
{
    if b.len() == 0 {
        assert(a + b =~= a);
    } else {
        assert((a + b).drop_last() =~= a);
        assert((a + b).last() == b[0]);
        assert(b.drop_last() =~= Seq::<CopyOp>::empty());
        assert(copy_bytes(Seq::<CopyOp>::empty()) == 0);
    }
}

/// The copies planned for some entries weigh no more than their files.
proof fn lemma_copies_within_files(src: Seq<Entry>, dst: Seq<Entry>, fold: bool, tol: i64, verify: bool)
    ensures
        0 <= copy_bytes(planned_copies(src, dst, fold, tol, verify)) <= file_bytes(src),
    decreases src.len(),
{
    if src.len() > 0 {
        lemma_copies_within_files(src.drop_last(), dst, fold, tol, verify);
        let item = copy_item(src.last(), counterpart(src.last(), dst, fold), tol, verify);
        lemma_copy_bytes_append(planned_copies(src.drop_last(), dst, fold, tol, verify), item);
        if item.len() == 1 {
            assert(item.drop_last() =~= Seq::<CopyOp>::empty());
            assert(copy_bytes(Seq::<CopyOp>::empty()) == 0);
            assert(copy_bytes(item) == item[0].size);
        } else {
            assert(item =~= Seq::<CopyOp>::empty());
        }
    }
}

/// A prefix of a listing weighs no more than the listing.
proof fn lemma_file_bytes_prefix(s: Seq<Entry>, i: int)
    requires
        0 <= i <= s.len(),
    ensures
        0 <= file_bytes(s.take(i)) <= file_bytes(s),
    decreases s.len(),
{
    if i == s.len() {
        assert(s.take(i) =~= s);
        if s.len() > 0 {
            lemma_file_bytes_prefix(s.drop_last(), 0);
        }
    } else {
        assert(s.drop_last().take(i) =~= s.take(i));
        lemma_file_bytes_prefix(s.drop_last(), i);
    }
}

/// The plan that makes the destination tree `dst` a mirror of the source
/// tree `src`: source entries are visited in key order, then the destination
/// entries absent from the source are deleted (taken in path order, skipping
/// those under the last one kept), all deletions deepest first so that each
/// entry goes before the folders holding it; folders are created shallowest
/// first, and
/// the deletions are held back when their share of the destination exceeds
/// `threshold` percent.
pub fn plan_trees(src: &Tree, dst: &Tree, tol: i64, verify: bool, threshold: u32) -> (plan: ExecPlan)
    requires
        src.wf(),
        dst.wf(),
        src.fold_case() == dst.fold_case(),
        file_bytes(src.entries()) <= u64::MAX,
    ensures
        plan.create_dirs@ == sorted_by_depth(planned_dirs(src.entries(), dst.entries(), src.fold_case())),
        plan.copies@ == planned_copies(src.entries(), dst.entries(), src.fold_case(), tol, verify),
        plan.deletes@ == deepest_first(
            planned_conflicts(src.entries(), dst.entries(), src.fold_case()) + pruned(
                sorted_by_rel(extras_of(dst.entries(), src.entries(), src.fold_case())),
            ).0,
        ),
        children_first(plan.deletes@),
        plan.total_bytes == copy_bytes(plan.copies@),
        plan.extra_entries == extras_of(dst.entries(), src.entries(), src.fold_case()).len(),
        plan.dest_total == dst.entries().len(),
        plan.delete_pct == percent_of(plan.extra_entries as int, plan.dest_total as int),
        plan.aborted_safety == held_back(plan.extra_entries as int, plan.delete_pct as int, threshold),
        items_listed(plan, src.entries(), dst.entries()),
{
    let ghost fold = src.fold_case();
    let ghost se_all = src.entries();
    let n = src.len();
    let mut dirs: Vec<String> = Vec::new();
    let mut copies: Vec<CopyOp> = Vec::new();
    let mut conflicts: Vec<DeleteOp> = Vec::new();
    let mut total: u64 = 0;
    for i in 0..n
        invariant
            src.wf(),
            dst.wf(),
            fold == src.fold_case(),
            fold == dst.fold_case(),
            se_all == src.entries(),
            n == se_all.len(),
            file_bytes(se_all) <= u64::MAX,
            dirs@ == planned_dirs(se_all.take(i as int), dst.entries(), fold),
            copies@ == planned_copies(se_all.take(i as int), dst.entries(), fold, tol, verify),
            conflicts@ == planned_conflicts(se_all.take(i as int), dst.entries(), fold),
            total == copy_bytes(copies@),
    {
        let se = src.get(i);
        let key = src.key(i);
        let found = dst.find(key.as_slice());
        let ghost de = counterpart(*se, dst.entries(), fold);
        proof {
            let pre = se_all.take(i + 1);
            assert(pre.drop_last() =~= se_all.take(i as int));
            assert(pre.last() == *se);
            match found {
                Some(j) => {
                    dst.lemma_lookup_at(j as int);
                },
                None => {},
            }
            lemma_copies_within_files(pre, dst.entries(), fold, tol, verify);
            lemma_file_bytes_prefix(se_all, i + 1);
            let item = copy_item(*se, de, tol, verify);
            lemma_copy_bytes_append(copies@, item);
            assert(planned_copies(pre, dst.entries(), fold, tol, verify) == copies@ + item);
            if item.len() == 1 {
                assert(item.drop_last() =~= Seq::<CopyOp>::empty());
                assert(copy_bytes(Seq::<CopyOp>::empty()) == 0);
                assert(copy_bytes(item) == item[0].size);
                assert(item[0].size == se.size);
            }
            assert(total + copy_bytes(item) <= u64::MAX);
        }
        match found {
            None => {
                if se.is_dir {
                    dirs.push(se.rel.clone());
                } else {
                    total = total + se.size;
                    copies.push(CopyOp { rel: se.rel.clone(), size: se.size, reason: ChangeReason::New, is_new: true });
                }
            },
            Some(j) => {
                let d = dst.get(j);
                if se.is_dir && d.is_dir {
                } else if !se.is_dir && !d.is_dir {
                    match detect_changed(se, d, tol, verify) {
                        Some(reason) => {
                            total = total + se.size;
                            copies.push(CopyOp { rel: se.rel.clone(), size: se.size, reason, is_new: false });
                        },
                        None => {},
                    }
                } else {
                    conflicts.push(DeleteOp { rel: se.rel.clone(), is_dir: d.is_dir });
                    if se.is_dir {
                        dirs.push(se.rel.clone());
                    } else {
                        total = total + se.size;
                        copies.push(CopyOp { rel: se.rel.clone(), size: se.size, reason: ChangeReason::New, is_new: true });
                    }
                }
            },
        }
        proof {
            let pre = se_all.take(i + 1);
            assert(dirs@ =~= planned_dirs(pre, dst.entries(), fold));
            assert(copies@ =~= planned_copies(pre, dst.entries(), fold, tol, verify));
            assert(conflicts@ =~= planned_conflicts(pre, dst.entries(), fold));
        }
    }
    assert(se_all.take(n as int) =~= se_all);
    let extras = extra_entries(src, dst);
    let mut candidates = conflicts;
    let mut pruned_deletes = prune_extras(&extras);
    let ghost conflict_ops = candidates@;
    let ghost extra_ops = pruned_deletes@;
    candidates.append(&mut pruned_deletes);
    let deletes = order_deletes(&candidates);
    let create_dirs = sort_dirs(&dirs);
    proof {
        let se = src.entries();
        let de = dst.entries();
        lemma_planned_listed(se, de, fold, tol, verify);
        assert forall|k: int| 0 <= k < create_dirs@.len() implies listed_rel(se, (#[trigger] create_dirs@[k])@) by {
            let t = choose|t: int| 0 <= t < dirs@.len() && (#[trigger] dirs@[t])@ == create_dirs@[k]@;
            assert(dirs@[t] == planned_dirs(se, de, fold)[t]);
        }
        assert forall|k: int| 0 <= k < deletes@.len() implies listed_rel(se, (#[trigger] deletes@[k]).rel@)
            || listed_rel(de, deletes@[k].rel@) by {
            let t = choose|t: int| 0 <= t < candidates@.len() && (#[trigger] candidates@[t]).rel@ == deletes@[k].rel@;
            if t < conflict_ops.len() {
                assert(candidates@[t] == conflict_ops[t]);
                assert(conflict_ops[t] == planned_conflicts(se, de, fold)[t]);
            } else {
                let u = t - conflict_ops.len();
                assert(candidates@[t] == extra_ops[u]);
                assert(listed_rel(extras@, extra_ops[u].rel@));
                let i = choose|i: int| 0 <= i < extras@.len() && (#[trigger] extras@[i]).rel@ == extra_ops[u].rel@;
                let pred = |e: Entry| lookup_in(se, fold, entry_key(e.rel@, fold)) is None;
                assert(extras@ == de.filter(pred));
                assert(de.filter(pred).contains(extras@[i]));
                de.lemma_filter_contains_rev(pred, extras@[i]);
                let j = choose|j: int| 0 <= j < de.len() && de[j] == extras@[i];
                assert(de[j].rel@ == deletes@[k].rel@);
            }
        }
    }
    let extra_entries = extras.len();
    let dest_total = dst.len();
    proof {
        let pred = |e: Entry| lookup_in(src.entries(), fold, entry_key(e.rel@, fold)) is None;
        dst.entries().lemma_filter_len(pred);
    }
    let delete_pct: u32 = if dest_total > 0 {
        assert(extra_entries <= dest_total);
        assert((extra_entries as int) * 100 / (dest_total as int) <= 100) by (nonlinear_arith)
            requires
                extra_entries <= dest_total,
                dest_total > 0,
        ;
        ((extra_entries as u128) * 100 / (dest_total as u128)) as u32
    } else {
        0
    };
    let aborted_safety = extra_entries > 0 && threshold < 100 && delete_pct > threshold;
    ExecPlan {
        create_dirs,
        copies,
        deletes,
        total_bytes: total,
        extra_entries,
        dest_total,
        delete_pct,
        aborted_safety,
    }
}

/// The destination entries with no source entry under the same key.
fn extra_entries(src: &Tree, dst: &Tree) -> (r: Vec<Entry>)
    requires
        src.wf(),
        dst.wf(),
        src.fold_case() == dst.fold_case(),
    ensures
        r@ == extras_of(dst.entries(), src.entries(), src.fold_case()),
{
    let ghost fold = src.fold_case();
    let ghost pred = |e: Entry| lookup_in(src.entries(), fold, entry_key(e.rel@, fold)) is None;
    let m = dst.len();
    let mut r: Vec<Entry> = Vec::new();
    for j in 0..m
        invariant
            src.wf(),
            dst.wf(),
            fold == src.fold_case(),
            fold == dst.fold_case(),
            m == dst.entries().len(),
            pred == (|e: Entry| lookup_in(src.entries(), fold, entry_key(e.rel@, fold)) is None),
            r@ == dst.entries().take(j as int).filter(pred),
    {
        let d = dst.get(j);
        let found = src.find(dst.key(j).as_slice());
        proof {
            match found {
                Some(i) => {
                    src.lemma_lookup_at(i as int);
                },
                None => {},
            }
            assert(found is None <==> pred(*d));
        }
        if found.is_none() {
            r.push(d.duplicate());
        }
        proof {
            let s1 = dst.entries().take(j + 1);
            assert(s1.drop_last() =~= dst.entries().take(j as int));
            assert(s1.last() == *d);
            reveal(Seq::filter);
            assert(s1.filter(pred) == if pred(s1.last()) {
                s1.drop_last().filter(pred).push(s1.last())
            } else {
                s1.drop_last().filter(pred)
            });
        }
    }
    assert(dst.entries().take(m as int) =~= dst.entries());
    r
}

/// The deletions for extra entries: sorted by path, skipping entries under
/// the last entry kept.
fn prune_extras(extras: &Vec<Entry>) -> (r: Vec<DeleteOp>)
    ensures
        r@ == pruned(sorted_by_rel(extras@)).0,
        forall|k: int| 0 <= k < r@.len() ==> listed_rel(extras@, (#[trigger] r@[k]).rel@),
{
    let m = extras.len();
    let mut sk: Vec<SortKey> = Vec::new();
    for k in 0..m
        invariant
            m == extras@.len(),
            sk@.len() == k,
            forall|t: int| 0 <= t < k ==> key_views(sk@)[t] == rel_keys(extras@)[t],
    {
        sk.push(SortKey { rank: 0, text: chars_of(extras[k].rel.as_str()) });
        proof {
            assert forall|t: int| 0 <= t < k + 1 implies key_views(sk@)[t] == rel_keys(extras@)[t] by {
                if t < k {
                }
            }
        }
    }
    assert(key_views(sk@) =~= rel_keys(extras@));
    let p = sort_by_keys(&sk);
    let ghost sorted = sorted_by_rel(extras@);
    assert(sorted.len() == m);
    let mut r: Vec<DeleteOp> = Vec::new();
    let mut root: Option<Vec<char>> = None;
    for k in 0..m
        invariant
            m == extras@.len(),
            sorted == sorted_by_rel(extras@),
            sorted.len() == m,
            is_position_permutation(p@, m as nat),
            p@ == sorted_positions(rel_keys(extras@)),
            r@ == pruned(sorted.take(k as int)).0,
            pruned(sorted.take(k as int)).1 == match root {
                Some(v) => Some(v@),
                None => None::<Seq<char>>,
            },
    {
        let e = &extras[p[k]];
        assert(sorted[k as int] == *e);
        let covered = match &root {
            Some(v) => {
                let mut pre = v.clone();
                pre.push('/');
                chars_start_with(chars_of(e.rel.as_str()).as_slice(), pre.as_slice())
            },
            None => false,
        };
        proof {
            let s1 = sorted.take(k + 1);
            assert(s1.drop_last() =~= sorted.take(k as int));
            assert(s1.last() == *e);
        }
        if !covered {
            r.push(DeleteOp { rel: e.rel.clone(), is_dir: e.is_dir });
            root = Some(chars_of(e.rel.as_str()));
        }
    }
    assert(sorted.take(m as int) =~= sorted);
    proof {
        lemma_pruned_listed(sorted);
        assert forall|k: int| 0 <= k < r@.len() implies listed_rel(extras@, (#[trigger] r@[k]).rel@) by {
            let i = choose|i: int| 0 <= i < sorted.len() && (#[trigger] sorted[i]).rel@ == r@[k].rel@;
            assert(p@[i] < m);
            assert(sorted[i] == extras@[p@[i] as int]);
        }
    }
    r
}

/// Deletions sorted deepest first, so that each entry goes before the
/// folders that hold it.
fn order_deletes(ds: &Vec<DeleteOp>) -> (r: Vec<DeleteOp>)
    ensures
        r@ == deepest_first(ds@),
        children_first(r@),
        forall|k: int| 0 <= k < r@.len() ==> delete_listed(ds@, (#[trigger] r@[k]).rel@),
{
    let m = ds.len();
    let mut sk: Vec<SortKey> = Vec::new();
    for k in 0..m
        invariant
            m == ds@.len(),
            sk@.len() == k,
            forall|t: int| 0 <= t < k ==> key_views(sk@)[t] == depth_desc_keys(ds@)[t],
            forall|t: int| 0 <= t < k ==> count_char(#[trigger] ds@[t].rel@, '/') <= usize::MAX,
    {
        let c = chars_count(chars_of(ds[k].rel.as_str()).as_slice(), '/');
        sk.push(SortKey { rank: u64::MAX - (c as u64), text: Vec::new() });
        proof {
            assert forall|t: int| 0 <= t < k + 1 implies key_views(sk@)[t] == depth_desc_keys(ds@)[t] by {
                if t == k {
                    assert(sk@[t].text@ =~= Seq::<char>::empty());
                }
            }
        }
    }
    assert(key_views(sk@) =~= depth_desc_keys(ds@));
    let p = sort_by_keys(&sk);
    let ghost keys = depth_desc_keys(ds@);
    let mut r: Vec<DeleteOp> = Vec::new();
    for k in 0..m
        invariant
            m == ds@.len(),
            keys == depth_desc_keys(ds@),
            is_position_permutation(p@, m as nat),
            crate::order::is_sorted_by_keys(keys, p@),
            p@ == sorted_positions(keys),
            r@ == deepest_first(ds@).take(k as int),
            forall|t: int| 0 <= t < m ==> count_char(#[trigger] ds@[t].rel@, '/') <= usize::MAX,
    {
        let d = &ds[p[k]];
        r.push(DeleteOp { rel: d.rel.clone(), is_dir: d.is_dir });
        assert(r@ =~= deepest_first(ds@).take(k + 1));
    }
    assert(deepest_first(ds@).take(m as int) =~= deepest_first(ds@));
    proof {
        let out = deepest_first(ds@);
        assert forall|i: int, j: int| 0 <= i < j < out.len() implies !lies_under(
            #[trigger] out[j].rel@,
            #[trigger] out[i].rel@,
        ) by {
            let a = p@[i];
            let b = p@[j];
            assert(a < m && b < m);
            assert(crate::order::index_lt(keys, a, b));
            assert(out[i] == ds@[a as int]);
            assert(out[j] == ds@[b as int]);
            assert(count_char(ds@[a as int].rel@, '/') <= usize::MAX);
            assert(count_char(ds@[b as int].rel@, '/') <= usize::MAX);
            if lies_under(out[j].rel@, out[i].rel@) {
                lemma_under_deeper(out[j].rel@, out[i].rel@);
                assert(keys[a as int].0 == (u64::MAX - count_char(ds@[a as int].rel@, '/')) as u64);
                assert(keys[b as int].0 == (u64::MAX - count_char(ds@[b as int].rel@, '/')) as u64);
                assert(false);
            }
        }
        assert forall|k: int| 0 <= k < r@.len() implies delete_listed(ds@, (#[trigger] r@[k]).rel@) by {
            let t = p@[k] as int;
            assert(p@[k] < m);
            assert(r@[k] == ds@[t]);
        }
    }
    r
}

/// Folders sorted by depth, shallowest first.
fn sort_dirs(dirs: &Vec<String>) -> (r: Vec<String>)
    ensures
        r@ == sorted_by_depth(dirs@),
        forall|k: int| 0 <= k < r@.len() ==> text_listed(dirs@, (#[trigger] r@[k])@),
{
    let m = dirs.len();
    let mut sk: Vec<SortKey> = Vec::new();
    for k in 0..m
        invariant
            m == dirs@.len(),
            sk@.len() == k,
            forall|t: int| 0 <= t < k ==> key_views(sk@)[t] == depth_keys(dirs@)[t],
    {
        let c = chars_count(chars_of(dirs[k].as_str()).as_slice(), '/');
        sk.push(SortKey { rank: c as u64, text: Vec::new() });
        proof {
            assert forall|t: int| 0 <= t < k + 1 implies key_views(sk@)[t] == depth_keys(dirs@)[t] by {
                if t == k {
                    assert(sk@[t].text@ =~= Seq::<char>::empty());
                }
            }
        }
    }
    assert(key_views(sk@) =~= depth_keys(dirs@));
    let p = sort_by_keys(&sk);
    let mut r: Vec<String> = Vec::new();
    for k in 0..m
        invariant
            m == dirs@.len(),
            is_position_permutation(p@, m as nat),
            p@ == sorted_positions(depth_keys(dirs@)),
            r@ == sorted_by_depth(dirs@).take(k as int),
    {
        r.push(dirs[p[k]].clone());
        assert(r@ =~= sorted_by_depth(dirs@).take(k + 1));
    }
    assert(sorted_by_depth(dirs@).take(m as int) =~= sorted_by_depth(dirs@));
    proof {
        assert forall|k: int| 0 <= k < r@.len() implies text_listed(dirs@, (#[trigger] r@[k])@) by {
            let t = p@[k] as int;
            assert(p@[k] < m);
            assert(r@[k] == dirs@[t]);
        }
    }
    r
}


/// Whether the keys of a listing strictly increase.
pub open spec fn keys_increasing(es: Seq<Entry>, fold: bool) -> bool {
    forall|i: int, j: int| 0 <= i < j < es.len() ==> seq_lt(entry_key(es[i].rel@, fold), entry_key(es[j].rel@, fold))
}

/// A well-formed tree lists its entries by increasing key.
proof fn lemma_tree_keys_increasing(t: Tree)
    requires
        t.wf(),
    ensures
        keys_increasing(t.entries(), t.fold_case()),
{
    t.lemma_sorted();
    let es = t.entries();
    let f = t.fold_case();
    assert forall|i: int, j: int| 0 <= i < j < es.len() implies seq_lt(entry_key(es[i].rel@, f), entry_key(es[j].rel@, f)) by {
        assert(seq_lt(t.key_at(i), t.key_at(j)));
    }
}

/// Keeping some entries of a listing keeps its keys increasing.
proof fn lemma_filter_keys_increasing(es: Seq<Entry>, fold: bool, p: spec_fn(Entry) -> bool)
    requires
        keys_increasing(es, fold),
    ensures
        keys_increasing(es.filter(p), fold),
    decreases es.len(),
{
    reveal(Seq::filter);
    if es.len() > 0 {
        let rest = es.drop_last();
        assert(keys_increasing(rest, fold)) by {
            assert forall|i: int, j: int| 0 <= i < j < rest.len() implies seq_lt(
                entry_key(rest[i].rel@, fold),
                entry_key(rest[j].rel@, fold),
            ) by {
                assert(rest[i] == es[i] && rest[j] == es[j]);
            }
        }
        lemma_filter_keys_increasing(rest, fold, p);
        if p(es.last()) {
            let f = rest.filter(p);
            assert(es.filter(p) == f.push(es.last()));
            assert forall|i: int, j: int| 0 <= i < j < f.len() + 1 implies seq_lt(
                entry_key(f.push(es.last())[i].rel@, fold),
                entry_key(f.push(es.last())[j].rel@, fold),
            ) by {
                if j == f.len() {
                    assert(f.contains(f[i]));
                    rest.lemma_filter_contains_rev(p, f[i]);
                    assert(rest.contains(f[i]));
                    let k = choose|k: int| 0 <= k < rest.len() && rest[k] == f[i];
                    assert(es[k] == f[i]);
                    assert(f.push(es.last())[i] == f[i]);
                    assert(f.push(es.last())[j] == es[es.len() - 1]);
                } else {
                    assert(f.push(es.last())[i] == f[i]);
                    assert(f.push(es.last())[j] == f[j]);
                }
            }
        }
    }
}

/// In a listing with increasing keys, the entry found under the key of an
/// entry is that entry.
proof fn lemma_lookup_own(es: Seq<Entry>, fold: bool, i: int)
    requires
        keys_increasing(es, fold),
        0 <= i < es.len(),
    ensures
        lookup_in(es, fold, entry_key(es[i].rel@, fold)) == Some(es[i]),
{
    let key = entry_key(es[i].rel@, fold);
    assert(exists|j: int| 0 <= j < es.len() && entry_key(es[j].rel@, fold) == key);
    let j = choose|j: int| 0 <= j < es.len() && entry_key(es[j].rel@, fold) == key;
    crate::text::lemma_seq_lt_irreflexive(key);
    if i < j {
        assert(seq_lt(entry_key(es[i].rel@, fold), entry_key(es[j].rel@, fold)));
    } else if j < i {
        assert(seq_lt(entry_key(es[j].rel@, fold), entry_key(es[i].rel@, fold)));
    }
}

/// Against itself, a listing plans nothing for its first `k` entries.
proof fn lemma_prefix_plans_of_same(es: Seq<Entry>, fold: bool, tol: i64, verify: bool, k: int)
    requires
        keys_increasing(es, fold),
        tol >= 0,
        0 <= k <= es.len(),
    ensures
        planned_dirs(es.take(k), es, fold).len() == 0,
        planned_copies(es.take(k), es, fold, tol, verify).len() == 0,
        planned_conflicts(es.take(k), es, fold).len() == 0,
    decreases k,
{
    if k > 0 {
        lemma_prefix_plans_of_same(es, fold, tol, verify, k - 1);
        let pre = es.take(k);
        assert(pre.drop_last() =~= es.take(k - 1));
        assert(pre.last() == es[k - 1]);
        lemma_lookup_own(es, fold, k - 1);
        let e = es[k - 1];
        assert(counterpart(e, es, fold) == Some(e));
        assert(abs_int(e.mtime - e.mtime) == 0);
        assert(change_of(e, e, tol, verify) is None);
        assert(dir_item(e, Some(e)) =~= Seq::<String>::empty());
        assert(copy_item(e, Some(e), tol, verify) =~= Seq::<CopyOp>::empty());
        assert(conflict_item(e, Some(e)) =~= Seq::<DeleteOp>::empty());
    }
}

/// Sorting nothing gives nothing.
proof fn lemma_sorted_positions_empty(keys: Seq<KeyView>)
    requires
        keys.len() == 0,
    ensures
        sorted_positions(keys).len() == 0,
{
    let e = Seq::<usize>::empty();
    assert(is_position_permutation(e, 0) && crate::order::is_sorted_by_keys(keys, e));
}

/// A second pass finds nothing to do: when the destination lists exactly
/// what the source lists (as after a complete pass) and the time tolerance
/// is not negative, the mirror plan creates no folder, copies nothing,
/// deletes nothing and holds nothing back.
pub proof fn lemma_second_pass_idle(plan: ExecPlan, pair: SyncPair, settings: Settings, t: Tree)
    requires
        t.wf(),
        settings.mtime_tolerance_sec >= 0,
        is_pair_plan(plan, pair, settings, t.entries(), t.entries(), t.fold_case()),
    ensures
        plan.create_dirs@.len() == 0,
        plan.copies@.len() == 0,
        plan.deletes@.len() == 0,
        plan.total_bytes == 0,
        plan.extra_entries == 0,
        plan.delete_pct == 0,
        !plan.aborted_safety,
{
    let fold = t.fold_case();
    let s = sized(t.entries(), pair);
    lemma_tree_keys_increasing(t);
    lemma_filter_keys_increasing(t.entries(), fold, |e: Entry| keeps_size(e, pair.min_file_size, pair.max_file_size));
    let tol = settings.mtime_tolerance_sec;
    let verify = verifies_content(settings);
    lemma_prefix_plans_of_same(s, fold, tol, verify, s.len() as int);
    assert(s.take(s.len() as int) =~= s);
    assert(s.all(|e: Entry| !(lookup_in(s, fold, entry_key(e.rel@, fold)) is None))) by {
        assert forall|i: int| 0 <= i < s.len() implies !(lookup_in(s, fold, entry_key(s[i].rel@, fold)) is None) by {
            lemma_lookup_own(s, fold, i);
        }
    }
    s.lemma_all_neg_filter_empty(|e: Entry| lookup_in(s, fold, entry_key(e.rel@, fold)) is None);
    let ex = extras_of(s, s, fold);
    assert(ex.len() == 0);
    lemma_sorted_positions_empty(depth_keys(planned_dirs(s, s, fold)));
    lemma_sorted_positions_empty(rel_keys(ex));
    assert(sorted_by_rel(ex) =~= Seq::<Entry>::empty());
    assert(pruned(sorted_by_rel(ex)).0 =~= Seq::<DeleteOp>::empty());
    lemma_sorted_positions_empty(depth_desc_keys(planned_conflicts(s, s, fold) + pruned(sorted_by_rel(ex)).0));
    assert(plan.copies@ =~= Seq::<CopyOp>::empty());
    assert(copy_bytes(plan.copies@) == 0);
}

/// Whether destination entry `b` is source entry `a` as a completed pass
/// leaves it: the same key (the same path, up to case where paths are
/// compared without case), kind and size, a modification time within `tol`
/// seconds, and (when contents are compared) the same digest.
pub open spec fn copied_as(a: Entry, b: Entry, tol: i64, verify: bool, fold: bool) -> bool {
    &&& entry_key(a.rel@, fold) == entry_key(b.rel@, fold)
    &&& a.is_dir == b.is_dir
    &&& a.size == b.size
    &&& abs_int(a.mtime - b.mtime) <= tol
    &&& verify ==> a.digest == b.digest
}

/// Whether the destination listing is the source listing, entry by entry,
/// as a completed pass leaves it (see `copied_as`).
pub open spec fn mirrors(src: Seq<Entry>, dst: Seq<Entry>, tol: i64, verify: bool, fold: bool) -> bool {
    &&& src.len() == dst.len()
    &&& forall|i: int| 0 <= i < src.len() ==> copied_as(#[trigger] src[i], dst[i], tol, verify, fold)
}

/// The size bounds keep corresponding entries together.
proof fn lemma_mirrors_sized(src: Seq<Entry>, dst: Seq<Entry>, tol: i64, verify: bool, fold: bool, min: u64, max: u64)
    requires
        mirrors(src, dst, tol, verify, fold),
    ensures
        mirrors(
            src.filter(|e: Entry| keeps_size(e, min, max)),
            dst.filter(|e: Entry| keeps_size(e, min, max)),
            tol,
            verify,
            fold,
        ),
    decreases src.len(),
{
    reveal(Seq::filter);
    if src.len() > 0 {
        let (a, b) = (src.drop_last(), dst.drop_last());
        assert forall|i: int| 0 <= i < a.len() implies copied_as(#[trigger] a[i], b[i], tol, verify, fold) by {
            assert(a[i] == src[i] && b[i] == dst[i]);
        }
        lemma_mirrors_sized(a, b, tol, verify, fold, min, max);
        let fa = a.filter(|e: Entry| keeps_size(e, min, max));
        let fb = b.filter(|e: Entry| keeps_size(e, min, max));
        assert(copied_as(src[src.len() - 1], dst[dst.len() - 1], tol, verify, fold));
        if keeps_size(src.last(), min, max) {
            assert(keeps_size(dst.last(), min, max));
            let gs = fa.push(src.last());
            let gd = fb.push(dst.last());
            assert forall|i: int| 0 <= i < gs.len() implies copied_as(#[trigger] gs[i], gd[i], tol, verify, fold) by {
                if i < fa.len() {
                    assert(gs[i] == fa[i] && gd[i] == fb[i]);
                }
            }
        } else {
            assert(!keeps_size(dst.last(), min, max));
        }
    }
}

/// Against a listing that mirrors it, a listing plans nothing for its first
/// `k` entries.
proof fn lemma_prefix_plans_of_mirror(s: Seq<Entry>, d: Seq<Entry>, fold: bool, tol: i64, verify: bool, k: int)
    requires
        keys_increasing(d, fold),
        mirrors(s, d, tol, verify, fold),
        0 <= k <= s.len(),
    ensures
        planned_dirs(s.take(k), d, fold).len() == 0,
        planned_copies(s.take(k), d, fold, tol, verify).len() == 0,
        planned_conflicts(s.take(k), d, fold).len() == 0,
    decreases k,
{
    if k > 0 {
        lemma_prefix_plans_of_mirror(s, d, fold, tol, verify, k - 1);
        let pre = s.take(k);
        assert(pre.drop_last() =~= s.take(k - 1));
        assert(pre.last() == s[k - 1]);
        lemma_lookup_own(d, fold, k - 1);
        let e = s[k - 1];
        let f = d[k - 1];
        assert(copied_as(e, f, tol, verify, fold));
        assert(counterpart(e, d, fold) == Some(f));
        assert(change_of(e, f, tol, verify) is None);
        assert(dir_item(e, Some(f)) =~= Seq::<String>::empty());
        assert(copy_item(e, Some(f), tol, verify) =~= Seq::<CopyOp>::empty());
        assert(conflict_item(e, Some(f)) =~= Seq::<DeleteOp>::empty());
    }
}

/// No destination entry is extra when each has a source entry under its key.
proof fn lemma_no_extras(d: Seq<Entry>, s: Seq<Entry>, fold: bool)
    requires
        forall|i: int| 0 <= i < d.len() ==> (lookup_in(s, fold, entry_key(#[trigger] d[i].rel@, fold)) is Some),
    ensures
        extras_of(d, s, fold).len() == 0,
    decreases d.len(),
{
    reveal(Seq::filter);
    if d.len() > 0 {
        let r = d.drop_last();
        assert forall|i: int| 0 <= i < r.len() implies (lookup_in(s, fold, entry_key(#[trigger] r[i].rel@, fold)) is Some) by {
            assert(r[i] == d[i]);
        }
        lemma_no_extras(r, s, fold);
        assert(lookup_in(s, fold, entry_key(d[d.len() - 1].rel@, fold)) is Some);
    }
}

/// A second pass after a completed one finds nothing to do, with times
/// compared within the tolerance: when the destination listing is the
/// source listing entry by entry, each with the same key (the same path, up
/// to case where paths are compared without case), kind and size, a
/// modification time within the tolerance and (when contents are compared)
/// the same digest, the mirror plan creates no folder, copies nothing,
/// deletes nothing and holds nothing back.
pub proof fn lemma_second_pass_idle_within_tolerance(plan: ExecPlan, pair: SyncPair, settings: Settings, src: Tree, dst: Tree)
    requires
        src.wf(),
        dst.wf(),
        src.fold_case() == dst.fold_case(),
        mirrors(src.entries(), dst.entries(), settings.mtime_tolerance_sec, verifies_content(settings), src.fold_case()),
        is_pair_plan(plan, pair, settings, src.entries(), dst.entries(), src.fold_case()),
    ensures
        plan.create_dirs@.len() == 0,
        plan.copies@.len() == 0,
        plan.deletes@.len() == 0,
        plan.total_bytes == 0,
        plan.extra_entries == 0,
        plan.delete_pct == 0,
        !plan.aborted_safety,
{
    let fold = src.fold_case();
    let tol = settings.mtime_tolerance_sec;
    let verify = verifies_content(settings);
    let (min, max) = (pair.min_file_size, pair.max_file_size);
    let s = sized(src.entries(), pair);
    let d = sized(dst.entries(), pair);
    lemma_tree_keys_increasing(src);
    lemma_tree_keys_increasing(dst);
    lemma_filter_keys_increasing(src.entries(), fold, |e: Entry| keeps_size(e, min, max));
    lemma_filter_keys_increasing(dst.entries(), fold, |e: Entry| keeps_size(e, min, max));
    lemma_mirrors_sized(src.entries(), dst.entries(), tol, verify, fold, min, max);
    assert(mirrors(s, d, tol, verify, fold));
    lemma_prefix_plans_of_mirror(s, d, fold, tol, verify, s.len() as int);
    assert(s.take(s.len() as int) =~= s);
    assert forall|i: int| 0 <= i < d.len() implies (lookup_in(s, fold, entry_key(#[trigger] d[i].rel@, fold)) is Some) by {
        assert(copied_as(s[i], d[i], tol, verify, fold));
        lemma_lookup_own(s, fold, i);
    }
    lemma_no_extras(d, s, fold);
    let ex = extras_of(d, s, fold);
    assert(ex.len() == 0);
    lemma_sorted_positions_empty(depth_keys(planned_dirs(s, d, fold)));
    lemma_sorted_positions_empty(rel_keys(ex));
    assert(sorted_by_rel(ex) =~= Seq::<Entry>::empty());
    assert(pruned(sorted_by_rel(ex)).0 =~= Seq::<DeleteOp>::empty());
    lemma_sorted_positions_empty(depth_desc_keys(planned_conflicts(s, d, fold) + pruned(sorted_by_rel(ex)).0));
    assert(plan.copies@ =~= Seq::<CopyOp>::empty());
    assert(copy_bytes(plan.copies@) == 0);
}

/// A path listed after the size bounds is listed before them.
proof fn lemma_listed_sized(es: Seq<Entry>, pair: SyncPair, r: Seq<char>)
    requires
        listed_rel(sized(es, pair), r),
    ensures
        listed_rel(es, r),
{
    let f = sized(es, pair);
    let i = choose|i: int| 0 <= i < f.len() && (#[trigger] f[i]).rel@ == r;
    let pred = |e: Entry| keeps_size(e, pair.min_file_size, pair.max_file_size);
    assert(f == es.filter(pred));
    assert(f.contains(f[i]));
    es.lemma_filter_contains_rev(pred, f[i]);
    let j = choose|j: int| 0 <= j < es.len() && es[j] == f[i];
    assert(es[j].rel@ == r);
}

/// The plan only touches listed entries: a path found in neither listing
/// (as an entry that the ignore patterns left out of both) is never created,
/// copied or deleted.
pub proof fn lemma_unlisted_untouched(plan: ExecPlan, pair: SyncPair, settings: Settings, src: Seq<Entry>, dst: Seq<Entry>, fold: bool, r: Seq<char>)
    requires
        is_pair_plan(plan, pair, settings, src, dst, fold),
        !listed_rel(src, r),
        !listed_rel(dst, r),
    ensures
        forall|k: int| 0 <= k < plan.create_dirs@.len() ==> (#[trigger] plan.create_dirs@[k])@ != r,
        forall|k: int| 0 <= k < plan.copies@.len() ==> (#[trigger] plan.copies@[k]).rel@ != r,
        forall|k: int| 0 <= k < plan.deletes@.len() ==> (#[trigger] plan.deletes@[k]).rel@ != r,
{
    if !listed_rel(sized(src, pair), r) && !listed_rel(sized(dst, pair), r) {
    } else if listed_rel(sized(src, pair), r) {
        lemma_listed_sized(src, pair, r);
    } else {
        lemma_listed_sized(dst, pair, r);
    }
}

/// Copies planned for entries whose files are all within the size bounds
/// are within them too.
proof fn lemma_planned_copies_within(s: Seq<Entry>, d: Seq<Entry>, fold: bool, tol: i64, verify: bool, min: u64, max: u64)
    requires
        forall|i: int| 0 <= i < s.len() && !s[i].is_dir ==> within_size_bounds(#[trigger] s[i].size, min, max),
    ensures
        forall|k: int|
            0 <= k < planned_copies(s, d, fold, tol, verify).len() ==> within_size_bounds(
                (#[trigger] planned_copies(s, d, fold, tol, verify)[k]).size,
                min,
                max,
            ),
    decreases s.len(),
{
    if s.len() > 0 {
        let r = s.drop_last();
        assert forall|i: int| 0 <= i < r.len() && !r[i].is_dir implies within_size_bounds(#[trigger] r[i].size, min, max) by {
            assert(r[i] == s[i]);
        }
        lemma_planned_copies_within(r, d, fold, tol, verify, min, max);
        let pc = planned_copies(r, d, fold, tol, verify);
        assert(s[s.len() - 1] == s.last());
        assert forall|k: int| 0 <= k < planned_copies(s, d, fold, tol, verify).len() implies within_size_bounds(
            (#[trigger] planned_copies(s, d, fold, tol, verify)[k]).size,
            min,
            max,
        ) by {
            if k < pc.len() {
                assert(planned_copies(s, d, fold, tol, verify)[k] == pc[k]);
            } else {
                assert(planned_copies(s, d, fold, tol, verify)[k].size == s.last().size);
                assert(!s.last().is_dir);
            }
        }
    }
}

/// The size bounds of a pair hold for every copy it plans: no file below a
/// non-zero minimum or above a non-zero maximum is copied, whatever the other
/// bound is.
pub proof fn lemma_copies_within_size_bounds(plan: ExecPlan, pair: SyncPair, settings: Settings, src: Seq<Entry>, dst: Seq<Entry>, fold: bool)
    requires
        is_pair_plan(plan, pair, settings, src, dst, fold),
    ensures
        forall|k: int|
            0 <= k < plan.copies@.len() ==> within_size_bounds(
                (#[trigger] plan.copies@[k]).size,
                pair.min_file_size,
                pair.max_file_size,
            ),
        forall|k: int|
            0 <= k < plan.copies@.len() && pair.max_file_size > 0 ==> (#[trigger] plan.copies@[k]).size
                <= pair.max_file_size,
{
    let (min, max) = (pair.min_file_size, pair.max_file_size);
    let s = sized(src, pair);
    let d = sized(dst, pair);
    crate::tree::lemma_size_filter(src, min, max);
    assert(s == crate::tree::size_filtered(src, min, max));
    assert forall|i: int| 0 <= i < s.len() && !s[i].is_dir implies within_size_bounds(#[trigger] s[i].size, min, max) by {
        assert(s[i] == crate::tree::size_filtered(src, min, max)[i]);
    }
    lemma_planned_copies_within(
        s,
        d,
        fold,
        settings.mtime_tolerance_sec,
        verifies_content(settings),
        min,
        max,
    );
}

/// The share of deletions is a percentage, and a threshold of 100 or more
/// never holds a pass back.
pub proof fn lemma_pair_plan_share(plan: ExecPlan, pair: SyncPair, settings: Settings, src: Seq<Entry>, dst: Seq<Entry>, fold: bool)
    requires
        is_pair_plan(plan, pair, settings, src, dst, fold),
    ensures
        plan.delete_pct <= 100,
        plan.extra_entries <= plan.dest_total,
        settings.delete_safety_threshold_pct >= 100 ==> !plan.aborted_safety,
        plan.aborted_safety ==> plan.extra_entries > 0,
{
    let d = sized(dst, pair);
    let s = sized(src, pair);
    d.lemma_filter_len(|e: Entry| lookup_in(s, fold, entry_key(e.rel@, fold)) is None);
    let x = plan.extra_entries as int;
    let n = plan.dest_total as int;
    if n > 0 {
        assert(x * 100 / n <= 100) by (nonlinear_arith)
            requires
                0 <= x <= n,
                n > 0,
        ;
    }
}

} // verus!
