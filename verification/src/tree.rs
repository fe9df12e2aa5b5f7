//! The content of a synchronised folder: its entries keyed by relative path,
//! in key order, as the folder scan hands them over.
use vstd::prelude::*;
use crate::text::{chars_of, chars_less, copy_string, lemma_seq_lt_irreflexive, lemma_seq_lt_total, lemma_seq_lt_transitive, seq_lt, str_lowercase, to_lowercase, chars_equal, chars_copy, lemma_seq_lt_asymmetric};
use crate::order::{index_lt, sort_by_keys, SortKey, KeyView, key_views, lemma_index_lt_order, is_position_permutation, is_sorted_by_keys};

verus! {

/// One file or folder found under a synchronised root.
pub struct Entry {
    /// Path relative to the root, with `/` between components.
    pub rel: String,
    pub is_dir: bool,
    /// Size in bytes; 0 for a folder.
    pub size: u64,
    /// Modification time in seconds since the Unix epoch.
    pub mtime: i64,
    /// Content digest (BLAKE3), when the content was read for comparison.
    pub digest: Option<[u8; 32]>,
}

impl Entry {
    /// A copy of the entry.
    pub fn duplicate(&self) -> (r: Entry)
        ensures
            r == *self,
    {
        Entry {
            rel: self.rel.clone(),
            is_dir: self.is_dir,
            size: self.size,
            mtime: self.mtime,
            digest: self.digest,
        }
    }
}

/// The key under which an entry is stored: its relative path, lower-cased
/// where paths are compared without regard to case.
pub open spec fn entry_key(rel: Seq<char>, fold_case: bool) -> Seq<char> {
    if fold_case {
        str_lowercase(rel)
    } else {
        rel
    }
}

/// The key of a relative path.
pub fn norm_key(rel: &str, fold_case: bool) -> (r: String)
    ensures
        r@ == entry_key(rel@, fold_case),
{
    if fold_case {
        to_lowercase(rel)
    } else {
        rel.to_string()
    }
}

/// The entry of `entries` whose key is `key`, if any.
pub open spec fn lookup_in(entries: Seq<Entry>, fold_case: bool, key: Seq<char>) -> Option<Entry> {
    if exists|i: int| 0 <= i < entries.len() && entry_key(entries[i].rel@, fold_case) == key {
        Some(entries[choose|i: int| 0 <= i < entries.len() && entry_key(entries[i].rel@, fold_case) == key])
    } else {
        None
    }
}

/// Whether an entry passes the size bounds (a bound of 0 is no bound);
/// folders always pass.
pub open spec fn keeps_size(e: Entry, min: u64, max: u64) -> bool {
    e.is_dir || ((min == 0 || e.size >= min) && (max == 0 || e.size <= max))
}

/// Whether a file size lies within a pair's bounds: at least `min` when
/// `min` is not 0, at most `max` when `max` is not 0 (each bound on its own).
pub open spec fn within_size_bounds(size: u64, min: u64, max: u64) -> bool {
    &&& min > 0 ==> size >= min
    &&& max > 0 ==> size <= max
}

/// The entries of a listing that the size bounds keep, in order.
pub open spec fn size_filtered(es: Seq<Entry>, min: u64, max: u64) -> Seq<Entry> {
    es.filter(|e: Entry| keeps_size(e, min, max))
}

/// The size filter keeps every folder, and exactly the files whose size lies
/// within the bounds: every file it keeps is within the bounds, every folder
/// or file within the bounds is kept, and no other file is.
pub proof fn lemma_size_filter(es: Seq<Entry>, min: u64, max: u64)
    ensures
        forall|i: int|
            0 <= i < size_filtered(es, min, max).len() && !size_filtered(es, min, max)[i].is_dir ==> within_size_bounds(
                #[trigger] size_filtered(es, min, max)[i].size,
                min,
                max,
            ),
        forall|i: int|
            0 <= i < es.len() && (es[i].is_dir || within_size_bounds(es[i].size, min, max)) ==> size_filtered(
                es,
                min,
                max,
            ).contains(#[trigger] es[i]),
        forall|i: int|
            0 <= i < es.len() && !es[i].is_dir && !within_size_bounds(es[i].size, min, max) ==> !size_filtered(
                es,
                min,
                max,
            ).contains(#[trigger] es[i]),
{
    let p = |e: Entry| keeps_size(e, min, max);
    let f = size_filtered(es, min, max);
    assert(f == es.filter(p));
    es.filter_lemma(p);
    assert forall|i: int| 0 <= i < es.len() && !es[i].is_dir && !within_size_bounds(es[i].size, min, max) implies !f.contains(
        #[trigger] es[i],
    ) by {
        if f.contains(es[i]) {
            let k = choose|k: int| 0 <= k < f.len() && f[k] == es[i];
            assert(p(f[k]));
        }
    }
}

/// The map obtained by inserting the entries of `list` in order, each under
/// its key, a later entry replacing an earlier one with the same key.
pub open spec fn inserted_map(list: Seq<Entry>, fold_case: bool) -> Map<Seq<char>, Entry>
    decreases list.len(),
{
    if list.len() == 0 {
        Map::empty()
    } else {
        inserted_map(list.drop_last(), fold_case).insert(
            entry_key(list.last().rel@, fold_case),
            list.last(),
        )
    }
}

/// Every key of `list` stored under the last entry with that key.
proof fn lemma_inserted_map(list: Seq<Entry>, fold_case: bool)
    ensures
        forall|k: Seq<char>|
            #![trigger inserted_map(list, fold_case).contains_key(k)]
            inserted_map(list, fold_case).contains_key(k) ==> exists|j: int|
                0 <= j < list.len() && entry_key(list[j].rel@, fold_case) == k,
        forall|j: int|
            0 <= j < list.len() ==> inserted_map(list, fold_case).contains_key(
                #[trigger] entry_key(list[j].rel@, fold_case),
            ),
        forall|j: int|
            0 <= j < list.len() && (forall|m: int|
                j < m < list.len() ==> entry_key(list[m].rel@, fold_case) != entry_key(
                    list[j].rel@,
                    fold_case,
                )) ==> inserted_map(list, fold_case)[#[trigger] entry_key(list[j].rel@, fold_case)]
                == list[j],
    decreases list.len(),
{
    if list.len() > 0 {
        let prev = list.drop_last();
        lemma_inserted_map(prev, fold_case);
        let m = inserted_map(list, fold_case);
        assert forall|k: Seq<char>| #![trigger m.contains_key(k)] m.contains_key(k) implies exists|j: int|
            0 <= j < list.len() && entry_key(list[j].rel@, fold_case) == k by {
            if k == entry_key(list.last().rel@, fold_case) {
                assert(entry_key(list[list.len() - 1].rel@, fold_case) == k);
            } else {
                assert(inserted_map(prev, fold_case).contains_key(k));
                let j = choose|j: int| 0 <= j < prev.len() && entry_key(prev[j].rel@, fold_case) == k;
                assert(list[j] == prev[j]);
            }
        }
        assert forall|j: int| 0 <= j < list.len() implies m.contains_key(
            #[trigger] entry_key(list[j].rel@, fold_case),
        ) by {
            if j < list.len() - 1 {
                assert(list[j] == prev[j]);
                assert(inserted_map(prev, fold_case).contains_key(entry_key(prev[j].rel@, fold_case)));
            }
        }
        assert forall|j: int|
            0 <= j < list.len() && (forall|n: int|
                j < n < list.len() ==> entry_key(list[n].rel@, fold_case) != entry_key(
                    list[j].rel@,
                    fold_case,
                )) implies m[#[trigger] entry_key(list[j].rel@, fold_case)] == list[j] by {
            if j < list.len() - 1 {
                assert(list[j] == prev[j]);
                assert forall|n: int| j < n < prev.len() implies entry_key(prev[n].rel@, fold_case)
                    != entry_key(prev[j].rel@, fold_case) by {
                    assert(prev[n] == list[n]);
                }
                assert(entry_key(list[list.len() - 1].rel@, fold_case) != entry_key(list[j].rel@, fold_case));
            }
        }
    }
}

/// The last position of `list` holding the key of position `j0`.
proof fn lemma_last_with_key(list: Seq<Entry>, fold_case: bool, j0: int) -> (j: int)
    requires
        0 <= j0 < list.len(),
    ensures
        j0 <= j < list.len(),
        entry_key(list[j].rel@, fold_case) == entry_key(list[j0].rel@, fold_case),
        forall|m: int| j < m < list.len() ==> entry_key(list[m].rel@, fold_case) != entry_key(
            list[j0].rel@,
            fold_case,
        ),
    decreases list.len() - j0,
{
    let k = entry_key(list[j0].rel@, fold_case);
    if exists|m: int| j0 < m < list.len() && entry_key(list[m].rel@, fold_case) == k {
        let m = choose|m: int| j0 < m < list.len() && entry_key(list[m].rel@, fold_case) == k;
        lemma_last_with_key(list, fold_case, m)
    } else {
        j0
    }
}

/// The key text of the entry at sorted position `m`.
spec fn sorted_key(sk: Seq<KeyView>, p: Seq<usize>, m: int) -> Seq<char> {
    sk[p[m] as int].1
}

/// Whether sorted position `m` is the last of the positions sharing its key.
spec fn run_end(sk: Seq<KeyView>, p: Seq<usize>, m: int) -> bool {
    m + 1 == p.len() || sorted_key(sk, p, m + 1) != sorted_key(sk, p, m)
}

/// Along sorted positions, keys never decrease.
proof fn lemma_sorted_keys_monotone(sk: Seq<KeyView>, p: Seq<usize>, a: int, b: int)
    requires
        is_sorted_by_keys(sk, p),
        forall|i: int| 0 <= i < sk.len() ==> (#[trigger] sk[i]).0 == 0,
        forall|i: int| 0 <= i < p.len() ==> p[i] < sk.len(),
        0 <= a < b < p.len(),
    ensures
        seq_lt(sorted_key(sk, p, a), sorted_key(sk, p, b)) || sorted_key(sk, p, a) == sorted_key(
            sk,
            p,
            b,
        ),
        sorted_key(sk, p, a) == sorted_key(sk, p, b) ==> p[a] < p[b],
{
    assert(index_lt(sk, p[a], p[b]));
    lemma_seq_lt_irreflexive(sorted_key(sk, p, a));
    assert(sk[p[a] as int].0 == 0);
    assert(sk[p[b] as int].0 == 0);
}

/// The positions of `keys` (all of rank 0) that are the last with their
/// text, in increasing text order; every text of `keys` is among them.
pub fn last_of_each_key(sk: &Vec<SortKey>) -> (r: Vec<usize>)
    requires
        forall|m: int| 0 <= m < sk@.len() ==> (#[trigger] sk@[m]).rank == 0,
    ensures
        forall|u: int| 0 <= u < r@.len() ==> #[trigger] r@[u] < sk@.len(),
        forall|a: int, b: int|
            0 <= a < b < r@.len() ==> seq_lt(key_views(sk@)[r@[a] as int].1, key_views(sk@)[r@[b] as int].1),
        forall|u: int, m: int|
            0 <= u < r@.len() && r@[u] < m < sk@.len() ==> #[trigger] key_views(sk@)[m].1 != key_views(sk@)[#[trigger] r@[u] as int].1,
        forall|j: int|
            0 <= j < sk@.len() ==> #[trigger] texts_at(key_views(sk@), r@).contains(key_views(sk@)[j].1),
{
    let n = sk.len();
    let ghost kv = key_views(sk@);
    assert forall|m: int| 0 <= m < n implies (#[trigger] kv[m]).0 == 0 by {
        assert(kv[m] == (sk@[m].rank, sk@[m].text@));
    }
    let p = sort_by_keys(&sk);
    let mut out: Vec<usize> = Vec::new();
    let ghost mut kept: Seq<int> = Seq::empty();
    for i in 0..n
        invariant
            n == kv.len(),
            kv == key_views(sk@),
            is_position_permutation(p@, n as nat),
            is_sorted_by_keys(kv, p@),
            forall|m: int| 0 <= m < n ==> (#[trigger] kv[m]).0 == 0,
            out@.len() == kept.len(),
            forall|t: int|
                0 <= t < kept.len() ==> 0 <= #[trigger] kept[t] < i && run_end(kv, p@, kept[t])
                    && out@[t] == p@[kept[t]],
            forall|a: int, b: int| 0 <= a < b < kept.len() ==> seq_lt(sorted_key(kv, p@, kept[a]), sorted_key(kv, p@, kept[b])),
            forall|t: int| 0 <= t < kept.len() && i < n ==> seq_lt(sorted_key(kv, p@, #[trigger] kept[t]), sorted_key(kv, p@, i as int)),
            forall|m: int| 0 <= m < i && run_end(kv, p@, m) ==> exists|t: int| 0 <= t < kept.len() && #[trigger] kept[t] == m,
    {
        let ghost kept0 = kept;
        let j = p[i];
        let keep = i + 1 == n || !chars_equal(sk[p[i + 1]].text.as_slice(), sk[j].text.as_slice());
        proof {
            assert(kv[j as int] == (sk@[j as int].rank, sk@[j as int].text@));
            if i + 1 < n {
                assert(kv[p@[i + 1] as int] == (sk@[p@[i + 1] as int].rank, sk@[p@[i + 1] as int].text@));
                lemma_sorted_keys_monotone(kv, p@, i as int, i + 1);
                if keep {
                    assert forall|t: int| 0 <= t < kept.len() implies seq_lt(
                        sorted_key(kv, p@, #[trigger] kept[t]),
                        sorted_key(kv, p@, i + 1),
                    ) by {
                        lemma_seq_lt_transitive(sorted_key(kv, p@, kept[t]), sorted_key(kv, p@, i as int), sorted_key(kv, p@, i + 1));
                    }
                }
            }
        }
        if keep {
            out.push(j);
            proof {
                kept = kept.push(i as int);
            }
        }
        proof {
            assert forall|m: int| 0 <= m < i + 1 && run_end(kv, p@, m) implies exists|t: int|
                0 <= t < kept.len() && #[trigger] kept[t] == m by {
                if m == i {
                    assert(keep);
                    assert(kept[kept.len() - 1] == m);
                } else {
                    let t = choose|t: int| 0 <= t < kept0.len() && #[trigger] kept0[t] == m;
                    assert(kept[t] == kept0[t]);
                }
            }
        }
    }
    proof {
        assert forall|u: int| 0 <= u < out@.len() implies #[trigger] out@[u] < n by {
            assert(0 <= kept[u] < n);
        }
        assert forall|a: int, b: int| 0 <= a < b < out@.len() implies seq_lt(
            kv[out@[a] as int].1,
            kv[out@[b] as int].1,
        ) by {
            assert(sorted_key(kv, p@, kept[a]) == kv[out@[a] as int].1);
            assert(sorted_key(kv, p@, kept[b]) == kv[out@[b] as int].1);
        }
        assert forall|u: int, m: int| 0 <= u < out@.len() && out@[u] < m < n implies #[trigger] kv[m].1 != kv[#[trigger] out@[u] as int].1 by {
            let a = kept[u];
            let j = p@[a] as int;
            if kv[m].1 == kv[j].1 {
                assert(p@.contains(m as usize));
                let b = choose|b: int| 0 <= b < n && p@[b] == m as usize;
                lemma_index_lt_order(kv, p@[a], p@[b], p@[b]);
                if b < a {
                    lemma_sorted_keys_monotone(kv, p@, b, a);
                }
                assert(a < b);
                lemma_sorted_keys_monotone(kv, p@, a, a + 1);
                if a + 1 < b {
                    lemma_sorted_keys_monotone(kv, p@, a + 1, b);
                    if seq_lt(sorted_key(kv, p@, a), sorted_key(kv, p@, a + 1)) {
                        if seq_lt(sorted_key(kv, p@, a + 1), sorted_key(kv, p@, b)) {
                            lemma_seq_lt_transitive(sorted_key(kv, p@, a), sorted_key(kv, p@, a + 1), sorted_key(kv, p@, b));
                        }
                        lemma_seq_lt_irreflexive(sorted_key(kv, p@, a));
                    }
                }
            }
        }
        assert forall|j0: int| 0 <= j0 < sk@.len() implies #[trigger] texts_at(key_views(sk@), out@).contains(key_views(sk@)[j0].1) by {
            let j = lemma_last_of_key(kv, j0);
            assert(p@.contains(j as usize));
            let b = choose|b: int| 0 <= b < n && p@[b] == j as usize;
            if b + 1 < n && sorted_key(kv, p@, b + 1) == sorted_key(kv, p@, b) {
                lemma_sorted_keys_monotone(kv, p@, b, b + 1);
                assert(p@[b + 1] > j);
                assert(kv[p@[b + 1] as int].1 == kv[j0].1);
            }
            assert(run_end(kv, p@, b));
            let t0 = choose|t0: int| 0 <= t0 < kept.len() && kept[t0] == b;
            assert(kv[out@[t0] as int].1 == kv[j0].1);
            assert(key_views(sk@)[out@[t0] as int].1 == key_views(sk@)[j0].1);
            assert(texts_at(key_views(sk@), out@)[t0] == key_views(sk@)[j0].1);
        }
    }
    out
}

/// The texts at some positions.
pub open spec fn texts_at(kv: Seq<KeyView>, r: Seq<usize>) -> Seq<Seq<char>> {
    r.map_values(|x: usize| kv[x as int].1)
}

/// The last position of `kv` holding the text of position `j0`.
proof fn lemma_last_of_key(kv: Seq<KeyView>, j0: int) -> (j: int)
    requires
        0 <= j0 < kv.len(),
    ensures
        j0 <= j < kv.len(),
        kv[j].1 == kv[j0].1,
        forall|m: int| j < m < kv.len() ==> kv[m].1 != kv[j0].1,
    decreases kv.len() - j0,
{
    if exists|m: int| j0 < m < kv.len() && kv[m].1 == kv[j0].1 {
        let m = choose|m: int| j0 < m < kv.len() && kv[m].1 == kv[j0].1;
        lemma_last_of_key(kv, m)
    } else {
        j0
    }
}

/// Entries of a folder, stored in strictly increasing key order.
pub struct Tree {
    keys: Vec<Vec<char>>,
    entries: Vec<Entry>,
    fold_case: bool,
}

impl Tree {
    /// Keys match entries and are strictly increasing.
    pub closed spec fn wf(self) -> bool {
        &&& self.keys@.len() == self.entries@.len()
        &&& forall|i: int, j: int|
            0 <= i < j < self.keys@.len() ==> seq_lt(self.keys@[i]@, self.keys@[j]@)
        &&& forall|i: int|
            0 <= i < self.keys@.len() ==> self.keys@[i]@ == entry_key(
                self.entries@[i].rel@,
                self.fold_case,
            )
    }

    /// The entries, in increasing key order.
    pub closed spec fn entries(self) -> Seq<Entry> {
        self.entries@
    }

    /// Whether keys ignore case.
    pub closed spec fn fold_case(self) -> bool {
        self.fold_case
    }

    /// The key of the entry at position `i`.
    pub open spec fn key_at(self, i: int) -> Seq<char> {
        entry_key(self.entries()[i].rel@, self.fold_case())
    }

    /// Entries are in strictly increasing key order.
    pub proof fn lemma_sorted(&self)
        requires
            self.wf(),
        ensures
            forall|i: int, j: int|
                0 <= i < j < self.entries().len() ==> seq_lt(self.key_at(i), self.key_at(j)),
    {
        assert forall|i: int, j: int| 0 <= i < j < self.entries().len() implies seq_lt(
            self.key_at(i),
            self.key_at(j),
        ) by {
            assert(self.keys@[i]@ == self.key_at(i));
            assert(self.keys@[j]@ == self.key_at(j));
        }
    }

    /// The entry stored under `key`, if any.
    pub open spec fn lookup(self, key: Seq<char>) -> Option<Entry> {
        lookup_in(self.entries(), self.fold_case(), key)
    }

    /// The entry at a position is the one stored under its key.
    pub proof fn lemma_lookup_at(&self, i: int)
        requires
            self.wf(),
            0 <= i < self.entries().len(),
        ensures
            self.lookup(self.key_at(i)) == Some(self.entries()[i]),
    {
        self.lemma_sorted();
        let key = self.key_at(i);
        let es = self.entries();
        let f = self.fold_case();
        assert(entry_key(es[i].rel@, f) == key);
        assert(exists|j: int| 0 <= j < es.len() && entry_key(es[j].rel@, f) == key);
        let j = choose|j: int| 0 <= j < es.len() && entry_key(es[j].rel@, f) == key;
        assert(self.key_at(j) == key);
        if i < j {
            lemma_seq_lt_irreflexive(key);
        } else if j < i {
            lemma_seq_lt_irreflexive(key);
        }
    }

    /// The number of entries.
    pub fn len(&self) -> (r: usize)
        ensures
            r == self.entries().len(),
    {
        self.entries.len()
    }

    /// The entry at position `i`.
    pub fn get(&self, i: usize) -> (r: &Entry)
        requires
            i < self.entries().len(),
        ensures
            *r == self.entries()[i as int],
    {
        &self.entries[i]
    }

    /// The characters of the key at position `i`.
    pub(crate) fn key(&self, i: usize) -> (r: &Vec<char>)
        requires
            self.wf(),
            i < self.entries().len(),
        ensures
            r@ == self.key_at(i as int),
    {
        &self.keys[i]
    }

    /// Whether this tree holds exactly the entries of map `m`, one per key.
    pub open spec fn represents(self, m: Map<Seq<char>, Entry>) -> bool {
        &&& forall|i: int|
            0 <= i < self.entries().len() ==> m.contains_key(#[trigger] self.key_at(i))
                && m[self.key_at(i)] == self.entries()[i]
        &&& forall|k: Seq<char>|
            #![trigger m.contains_key(k)]
            m.contains_key(k) ==> exists|i: int| 0 <= i < self.entries().len() && self.key_at(i) == k
    }

    /// The tree of a folder listing: each entry is stored under its key, in
    /// increasing key order; of several entries with the same key the last
    /// one in `list` is kept.
    /// The tree of a folder listing: each entry is stored under its key, in
    /// increasing key order; of several entries with the same key the last
    /// one in `list` is kept.
    #[verifier::rlimit(60)]
    pub fn from_entries(list: Vec<Entry>, fold_case: bool) -> (t: Tree)
        ensures
            t.wf(),
            t.fold_case() == fold_case,
            t.represents(inserted_map(list@, fold_case)),
    {
        let n = list.len();
        let mut sk: Vec<SortKey> = Vec::new();
        for i in 0..n
            invariant
                n == list@.len(),
                sk@.len() == i,
                forall|m: int| 0 <= m < i ==> (#[trigger] sk@[m]).rank == 0 && sk@[m].text@ == entry_key(
                    list@[m].rel@,
                    fold_case,
                ),
        {
            let key = norm_key(list[i].rel.as_str(), fold_case);
            sk.push(SortKey { rank: 0, text: chars_of(key.as_str()) });
        }
        let ghost kv = key_views(sk@);
        assert forall|m: int| 0 <= m < n implies (#[trigger] kv[m]).0 == 0 && kv[m].1 == entry_key(
            list@[m].rel@,
            fold_case,
        ) by {
            assert(kv[m] == (sk@[m].rank, sk@[m].text@));
        }
        let pos = last_of_each_key(&sk);
        let mut keys: Vec<Vec<char>> = Vec::new();
        let mut entries: Vec<Entry> = Vec::new();
        let q = pos.len();
        for t in 0..q
            invariant
                q == pos@.len(),
                n == list@.len(),
                n == sk@.len(),
                kv == key_views(sk@),
                forall|u: int| 0 <= u < q ==> #[trigger] pos@[u] < n,
                keys@.len() == t,
                entries@.len() == t,
                forall|u: int| 0 <= u < t ==> #[trigger] keys@[u]@ == kv[pos@[u] as int].1,
                forall|u: int| 0 <= u < t ==> #[trigger] entries@[u] == list@[pos@[u] as int],
        {
            let j = pos[t];
            assert(kv[j as int] == (sk@[j as int].rank, sk@[j as int].text@));
            let ghost k0 = keys@;
            let ghost e0 = entries@;
            let kc = chars_copy(sk[j].text.as_slice());
            let ec = list[j].duplicate();
            keys.push(kc);
            entries.push(ec);
            proof {
                assert forall|u: int| 0 <= u < t + 1 implies #[trigger] keys@[u]@ == kv[pos@[u] as int].1 by {
                    if u < t {
                        assert(keys@[u] == k0[u]);
                    }
                }
                assert forall|u: int| 0 <= u < t + 1 implies #[trigger] entries@[u] == list@[pos@[u] as int] by {
                    if u < t {
                        assert(entries@[u] == e0[u]);
                    }
                }
            }
        }
        assert(forall|u: int| 0 <= u < q ==> #[trigger] keys@[u]@ == kv[pos@[u] as int].1);
        let ghost ks = keys@;
        let ghost es = entries@;
        assert(forall|u: int| 0 <= u < q ==> #[trigger] ks[u]@ == kv[pos@[u] as int].1 && es[u] == list@[pos@[u] as int]);
        let t = Tree { keys, entries, fold_case };
        proof {
            assert(t.keys@ == ks && t.entries@ == es);
            let list_v = list@;
            let mp = inserted_map(list_v, fold_case);
            lemma_inserted_map(list_v, fold_case);
            assert forall|a: int, b: int| 0 <= a < b < t.keys@.len() implies seq_lt(t.keys@[a]@, t.keys@[b]@) by {
                assert(pos@[a] < n && pos@[b] < n);
                assert(t.keys@[a]@ == kv[pos@[a] as int].1);
                assert(t.keys@[b]@ == kv[pos@[b] as int].1);
            }
            assert forall|a: int| 0 <= a < t.keys@.len() implies t.keys@[a]@ == entry_key(
                t.entries@[a].rel@,
                fold_case,
            ) by {
                let j = pos@[a] as int;
                assert(kv[j].1 == entry_key(list_v[j].rel@, fold_case));
            }
            assert(t.wf());
            assert forall|i: int| 0 <= i < t.entries().len() implies mp.contains_key(
                #[trigger] t.key_at(i),
            ) && mp[t.key_at(i)] == t.entries()[i] by {
                let j = pos@[i] as int;
                assert(i < q);
                assert(ks[i]@ == kv[j].1);
                assert(es[i] == list_v[j]);
                assert(t.key_at(i) == entry_key(list_v[j].rel@, fold_case));
                assert forall|m: int| j < m < list_v.len() implies entry_key(list_v[m].rel@, fold_case)
                    != entry_key(list_v[j].rel@, fold_case) by {
                    assert(kv[m].1 != kv[j].1);
                }
            }
            assert forall|k: Seq<char>| #![trigger mp.contains_key(k)] mp.contains_key(k) implies exists|i: int|
                0 <= i < t.entries().len() && t.key_at(i) == k by {
                let j = choose|j: int| 0 <= j < list_v.len() && entry_key(list_v[j].rel@, fold_case) == k;
                assert(kv[j].1 == key_views(sk@)[j].1);
                assert(texts_at(key_views(sk@), pos@).contains(key_views(sk@)[j].1));
                let u = choose|u: int| 0 <= u < pos@.len() && texts_at(key_views(sk@), pos@)[u] == key_views(sk@)[j].1;
                assert(ks[u]@ == kv[pos@[u] as int].1 && es[u] == list_v[pos@[u] as int]);
                assert(t.key_at(u) == kv[pos@[u] as int].1);
            }
        }
        t
    }

    /// The tree without the files outside the size bounds (a bound of 0 is no
    /// bound); folders are kept.
    pub fn retain_sizes(&self, min: u64, max: u64) -> (t: Tree)
        requires
            self.wf(),
        ensures
            t.wf(),
            t.fold_case() == self.fold_case(),
            t.entries() == self.entries().filter(|e: Entry| keeps_size(e, min, max)),
            forall|i: int|
                0 <= i < t.entries().len() && !t.entries()[i].is_dir ==> within_size_bounds(
                    #[trigger] t.entries()[i].size,
                    min,
                    max,
                ),
    {
        proof {
            lemma_size_filter(self.entries(), min, max);
            assert(size_filtered(self.entries(), min, max) == self.entries().filter(|e: Entry| keeps_size(e, min, max)));
        }
        let n = self.entries.len();
        let mut keys: Vec<Vec<char>> = Vec::new();
        let mut entries: Vec<Entry> = Vec::new();
        let ghost mut pos: Seq<int> = Seq::empty();
        let ghost pred = |e: Entry| keeps_size(e, min, max);
        for i in 0..n
            invariant
                self.wf(),
                n == self.entries@.len(),
                keys@.len() == pos.len(),
                pred == (|e: Entry| keeps_size(e, min, max)),
                entries@ == self.entries@.take(i as int).filter(pred),
                entries@.len() == pos.len(),
                forall|t: int| 0 <= t < pos.len() ==> 0 <= #[trigger] pos[t] < i && keys@[t]@ == self.keys@[pos[t]]@
                    && entries@[t] == self.entries@[pos[t]],
                forall|a: int, b: int| 0 <= a < b < pos.len() ==> pos[a] < pos[b],
        {
            let e = &self.entries[i];
            let keep = e.is_dir || ((min == 0 || e.size >= min) && (max == 0 || e.size <= max));
            let ghost before = entries@;
            proof {
                assert(*e == self.entries@[i as int]);
                assert(keep == keeps_size(*e, min, max));
                assert(keep == pred(self.entries@[i as int]));
            }
            if keep {
                keys.push(chars_copy(self.keys[i].as_slice()));
                entries.push(e.duplicate());
                proof {
                    pos = pos.push(i as int);
                }
            }
            proof {
                let s1 = self.entries@.take(i + 1);
                assert(s1.drop_last() =~= self.entries@.take(i as int));
                assert(s1.last() == self.entries@[i as int]);
                reveal(Seq::filter);
                assert(s1.filter(pred) == if pred(s1.last()) {
                    s1.drop_last().filter(pred).push(s1.last())
                } else {
                    s1.drop_last().filter(pred)
                });
            }
        }
        assert(self.entries@.take(n as int) =~= self.entries@);
        let t = Tree { keys, entries, fold_case: self.fold_case };
        proof {
            assert forall|a: int, b: int| 0 <= a < b < t.keys@.len() implies seq_lt(
                t.keys@[a]@,
                t.keys@[b]@,
            ) by {
                assert(pos[a] < pos[b]);
            }
            assert forall|a: int| 0 <= a < t.keys@.len() implies t.keys@[a]@ == entry_key(
                t.entries@[a].rel@,
                t.fold_case,
            ) by {
                assert(self.keys@[pos[a]]@ == entry_key(self.entries@[pos[a]].rel@, self.fold_case));
            }
        }
        t
    }

    /// An empty tree.
    pub fn new(fold_case: bool) -> (t: Tree)
        ensures
            t.wf(),
            t.entries() == Seq::<Entry>::empty(),
            t.fold_case() == fold_case,
    {
        Tree { keys: Vec::new(), entries: Vec::new(), fold_case }
    }

    /// The position of the entry with key `key`, if any.
    pub fn find(&self, key: &[char]) -> (r: Option<usize>)
        requires
            self.wf(),
        ensures
            match r {
                Some(i) => i < self.entries().len() && self.key_at(i as int) == key@,
                None => forall|i: int| 0 <= i < self.entries().len() ==> self.key_at(i) != key@,
            },
            match r {
                Some(i) => self.lookup(key@) == Some(self.entries()[i as int]),
                None => self.lookup(key@) is None,
            },
    {
        let mut lo: usize = 0;
        let mut hi: usize = self.keys.len();
        while lo < hi
            invariant
                self.wf(),
                lo <= hi <= self.keys@.len(),
                self.keys@.len() == self.entries@.len(),
                forall|i: int|
                    0 <= i < self.keys@.len() ==> self.keys@[i]@ == self.key_at(i),
                forall|i: int, j: int|
                    0 <= i < j < self.keys@.len() ==> seq_lt(self.keys@[i]@, self.keys@[j]@),
                forall|i: int| 0 <= i < lo ==> seq_lt(self.keys@[i]@, key@),
                forall|i: int| hi <= i < self.keys@.len() ==> seq_lt(key@, self.keys@[i]@),
            decreases hi - lo,
        {
            let mid = lo + (hi - lo) / 2;
            let k = &self.keys[mid];
            if chars_less(k.as_slice(), key) {
                proof {
                    assert forall|i: int| 0 <= i < mid + 1 implies seq_lt(self.keys@[i]@, key@) by {
                        if i < mid {
                            lemma_seq_lt_transitive(self.keys@[i]@, self.keys@[mid as int]@, key@);
                        }
                    }
                }
                lo = mid + 1;
            } else if chars_less(key, k.as_slice()) {
                proof {
                    assert forall|i: int| mid <= i < self.keys@.len() implies seq_lt(
                        key@,
                        self.keys@[i]@,
                    ) by {
                        if i > mid {
                            lemma_seq_lt_transitive(key@, self.keys@[mid as int]@, self.keys@[i]@);
                        }
                    }
                }
                hi = mid;
            } else {
                proof {
                    if k@ != key@ {
                        lemma_seq_lt_total(k@, key@);
                    }
                    self.lemma_lookup_at(mid as int);
                }
                return Some(mid);
            }
        }
        proof {
            assert forall|i: int| 0 <= i < self.entries().len() implies self.key_at(i) != key@ by {
                if i < lo {
                    lemma_seq_lt_irreflexive(key@);
                } else {
                    lemma_seq_lt_irreflexive(key@);
                }
            }
            let es = self.entries();
            let f = self.fold_case();
            if exists|i: int| 0 <= i < es.len() && entry_key(es[i].rel@, f) == key@ {
                let i = choose|i: int| 0 <= i < es.len() && entry_key(es[i].rel@, f) == key@;
                assert(self.key_at(i) == key@);
            }
        }
        None
    }
}

} // verus!
