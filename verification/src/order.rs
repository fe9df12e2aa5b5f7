//! Sorting of positions by a key made of a number and a text, with the
//! position itself as the last tie-breaker, so that every sort in the library
//! is stable and its result is unique.
use vstd::prelude::*;
use crate::text::{chars_less, lemma_seq_lt_asymmetric, lemma_seq_lt_irreflexive, lemma_seq_lt_total, lemma_seq_lt_transitive, seq_lt};
use std::cmp::Ordering;

verus! {

broadcast use vstd::seq_lib::group_seq_properties, vstd::multiset::group_multiset_axioms;

/// What a position is sorted by: first `rank`, then `text` in lexicographic order.
pub struct SortKey {
    pub rank: u64,
    pub text: Vec<char>,
}

/// A sort key as a mathematical value: rank and text.
pub type KeyView = (u64, Seq<char>);

/// The values of a sequence of sort keys.
pub open spec fn key_views(keys: Seq<SortKey>) -> Seq<KeyView> {
    keys.map_values(|k: SortKey| (k.rank, k.text@))
}

/// The key of position `a`.
pub open spec fn key_view_at(keys: Seq<KeyView>, a: usize) -> KeyView {
    keys[a as int]
}

/// Strict order on sort keys.
pub open spec fn key_lt(a: KeyView, b: KeyView) -> bool {
    a.0 < b.0 || (a.0 == b.0 && seq_lt(a.1, b.1))
}

/// Strict order on positions: by key, and by position between equal keys.
pub open spec fn index_lt(keys: Seq<KeyView>, a: usize, b: usize) -> bool {
    key_lt(keys[a as int], keys[b as int]) || (keys[a as int] == keys[b as int] && a < b)
}

/// `index_lt` is a strict total order.
pub proof fn lemma_index_lt_order(keys: Seq<KeyView>, a: usize, b: usize, c: usize)
    ensures
        !index_lt(keys, a, a),
        index_lt(keys, a, b) ==> !index_lt(keys, b, a),
        index_lt(keys, a, b) && index_lt(keys, b, c) ==> index_lt(keys, a, c),
        a != b ==> index_lt(keys, a, b) || index_lt(keys, b, a),
{
    let (ka, kb, kc) = (keys[a as int].1, keys[b as int].1, keys[c as int].1);
    lemma_seq_lt_irreflexive(ka);
    if seq_lt(ka, kb) {
        lemma_seq_lt_asymmetric(ka, kb);
        lemma_seq_lt_irreflexive(kb);
    }
    if seq_lt(ka, kb) && seq_lt(kb, kc) {
        lemma_seq_lt_transitive(ka, kb, kc);
    }
    if ka != kb {
        lemma_seq_lt_total(ka, kb);
    }
    if seq_lt(ka, kb) && kb == kc {
    }
    if seq_lt(kb, kc) && ka == kb {
    }
    if keys[a as int].0 == keys[b as int].0 && ka == kb {
        assert(keys[a as int] == keys[b as int]);
    }
}

/// Compares two positions by `index_lt`.
pub fn compare_positions(keys: &Vec<SortKey>, a: usize, b: usize) -> (r: Ordering)
    requires
        a < keys@.len(),
        b < keys@.len(),
    ensures
        (r == Ordering::Less) == index_lt(key_views(keys@), a, b),
        (r == Ordering::Greater) == index_lt(key_views(keys@), b, a),
        (r == Ordering::Equal) == (a == b),
{
    let ghost kv = key_views(keys@);
    proof {
        lemma_index_lt_order(kv, a, b, b);
        lemma_index_lt_order(kv, b, a, a);
    }
    let ka = &keys[a];
    let kb = &keys[b];
    assert(key_view_at(kv, a) == (ka.rank, ka.text@));
    assert(key_view_at(kv, b) == (kb.rank, kb.text@));
    if ka.rank < kb.rank {
        Ordering::Less
    } else if kb.rank < ka.rank {
        Ordering::Greater
    } else if chars_less(ka.text.as_slice(), kb.text.as_slice()) {
        Ordering::Less
    } else if chars_less(kb.text.as_slice(), ka.text.as_slice()) {
        Ordering::Greater
    } else {
        proof {
            if ka.text@ != kb.text@ {
                lemma_seq_lt_total(ka.text@, kb.text@);
            }
        }
        if a < b {
            Ordering::Less
        } else if b < a {
            Ordering::Greater
        } else {
            Ordering::Equal
        }
    }
}

/// `slice::sort_by` with `compare_positions` as the comparison: the positions
/// are permuted so that no later position compares before an earlier one.
#[verifier::external_body]
fn sort_positions(idx: &mut Vec<usize>, keys: &Vec<SortKey>)
    requires
        forall|i: int| 0 <= i < old(idx)@.len() ==> old(idx)@[i] < keys@.len(),
    ensures
        final(idx)@.to_multiset() == old(idx)@.to_multiset(),
        forall|i: int, j: int|
            0 <= i < j < final(idx)@.len() ==> !index_lt(
                key_views(keys@),
                final(idx)@[j],
                final(idx)@[i],
            ),
{
    idx.sort_by(|a, b| compare_positions(keys, *a, *b));
}

/// Whether `p` lists every position `0..n` exactly once.
pub open spec fn is_position_permutation(p: Seq<usize>, n: nat) -> bool {
    &&& p.len() == n
    &&& forall|i: int| 0 <= i < n ==> p[i] < n
    &&& forall|i: int, j: int| 0 <= i < j < n ==> p[i] != p[j]
    &&& forall|x: usize| x < n ==> p.contains(x)
}

/// Whether `p` is strictly increasing under `index_lt`.
pub open spec fn is_sorted_by_keys(keys: Seq<KeyView>, p: Seq<usize>) -> bool {
    forall|i: int, j: int| 0 <= i < j < p.len() ==> index_lt(keys, p[i], p[j])
}

/// The positions `0..keys.len()` in increasing `index_lt` order.
pub open spec fn sorted_positions(keys: Seq<KeyView>) -> Seq<usize> {
    choose|p: Seq<usize>|
        is_position_permutation(p, keys.len()) && is_sorted_by_keys(keys, p)
}

/// Two sequences that are strictly sorted permutations of each other are equal.
proof fn lemma_sorted_unique(keys: Seq<KeyView>, p: Seq<usize>, q: Seq<usize>)
    requires
        p.to_multiset() == q.to_multiset(),
        is_sorted_by_keys(keys, p),
        is_sorted_by_keys(keys, q),
    ensures
        p == q,
    decreases p.len(),
{
    p.to_multiset_ensures();
    q.to_multiset_ensures();
    if p.len() == 0 {
        assert(q.len() == 0);
        assert(p =~= q);
    } else {
        assert(q.len() > 0);
        assert(p.to_multiset().count(p[0]) > 0);
        assert(q.contains(p[0]));
        let j = choose|j: int| 0 <= j < q.len() && q[j] == p[0];
        assert(q.to_multiset().count(q[0]) > 0);
        assert(p.contains(q[0]));
        let i = choose|i: int| 0 <= i < p.len() && p[i] == q[0];
        lemma_index_lt_order(keys, p[0], q[0], p[0]);
        if i > 0 && j > 0 {
            assert(index_lt(keys, p[0], p[i]));
            assert(index_lt(keys, q[0], q[j]));
        }
        assert(p[0] == q[0]);
        vstd::seq_lib::to_multiset_remove(p, 0);
        vstd::seq_lib::to_multiset_remove(q, 0);
        assert(p.remove(0) =~= p.drop_first());
        assert(q.remove(0) =~= q.drop_first());
        lemma_sorted_unique(keys, p.drop_first(), q.drop_first());
        assert(p.len() == q.len());
        assert forall|k: int| 0 <= k < p.len() implies p[k] == q[k] by {
            if k > 0 {
                assert(p[k] == p.drop_first()[k - 1]);
                assert(q[k] == q.drop_first()[k - 1]);
            }
        }
        assert(p =~= q);
    }
}

/// The positions `0..keys.len()`, sorted by key and then by position.
pub fn sort_by_keys(keys: &Vec<SortKey>) -> (p: Vec<usize>)
    ensures
        p@ == sorted_positions(key_views(keys@)),
        is_position_permutation(p@, keys@.len()),
        is_sorted_by_keys(key_views(keys@), p@),
{
    let n = keys.len();
    let ghost kv = key_views(keys@);
    let mut p: Vec<usize> = Vec::new();
    for i in 0..n
        invariant
            n == keys@.len(),
            p@.len() == i,
            forall|k: int| 0 <= k < i ==> p@[k] == k,
    {
        p.push(i);
    }
    let ghost before = p@;
    proof {
        assert forall|i: int, j: int| 0 <= i < j < before.len() implies before[i] != before[j] by {}
        assert(before.no_duplicates());
        before.lemma_multiset_has_no_duplicates();
    }
    sort_positions(&mut p, keys);
    proof {
        let after = p@;
        after.to_multiset_ensures();
        before.to_multiset_ensures();
        assert forall|x: usize| after.to_multiset().contains(x) implies after.to_multiset().count(x)
            == 1 by {
            assert(before.to_multiset().contains(x));
        }
        after.lemma_multiset_has_no_duplicates_conv();
        assert forall|i: int| 0 <= i < n implies after[i] < n by {
            assert(after.to_multiset().count(after[i]) > 0);
            assert(before.contains(after[i]));
        }
        assert forall|i: int, j: int| 0 <= i < j < after.len() implies index_lt(
            kv,
            after[i],
            after[j],
        ) by {
            lemma_index_lt_order(kv, after[i], after[j], after[j]);
        }
        assert forall|x: usize| x < n implies after.contains(x) by {
            assert(before[x as int] == x);
            assert(before.to_multiset().count(x) > 0);
        }
        assert(is_position_permutation(after, n as nat));
        assert(is_position_permutation(after, n as nat) && is_sorted_by_keys(kv, after));
        let q = sorted_positions(kv);
        assert(is_position_permutation(q, n as nat) && is_sorted_by_keys(kv, q));
        lemma_position_permutations_same_multiset(after, q, n as nat);
        lemma_sorted_unique(kv, after, q);
    }
    p
}

/// Two permutations of `0..n` have the same multiset.
proof fn lemma_position_permutations_same_multiset(p: Seq<usize>, q: Seq<usize>, n: nat)
    requires
        is_position_permutation(p, n),
        is_position_permutation(q, n),
    ensures
        p.to_multiset() == q.to_multiset(),
{
    p.to_multiset_ensures();
    q.to_multiset_ensures();
    assert(p.no_duplicates());
    assert(q.no_duplicates());
    p.lemma_multiset_has_no_duplicates();
    q.lemma_multiset_has_no_duplicates();
    assert forall|x: usize| p.to_multiset().count(x) == q.to_multiset().count(x) by {
        if x < n {
            assert(p.contains(x) && q.contains(x));
            assert(p.to_multiset().contains(x));
            assert(q.to_multiset().contains(x));
        } else {
            if p.contains(x) {
                let i = choose|i: int| 0 <= i < p.len() && p[i] == x;
            }
            if q.contains(x) {
                let i = choose|i: int| 0 <= i < q.len() && q[i] == x;
            }
        }
    }
    assert(p.to_multiset() =~= q.to_multiset());
}

} // verus!
