//! A map from texts to small values, stored in strictly increasing key order
//! and searched by bisection.
use vstd::prelude::*;
use crate::text::{chars_of, chars_copy, chars_less, lemma_seq_lt_irreflexive, lemma_seq_lt_total, lemma_seq_lt_transitive, seq_lt};
use crate::order::{SortKey, key_views};
use crate::tree::{last_of_each_key, texts_at};

verus! {

/// The map obtained by inserting `(key, value)` pairs in order, a later pair
/// replacing an earlier one with the same key.
pub open spec fn last_wins<V>(list: Seq<(Seq<char>, V)>) -> Map<Seq<char>, V>
    decreases list.len(),
{
    if list.len() == 0 {
        Map::empty()
    } else {
        last_wins(list.drop_last()).insert(list.last().0, list.last().1)
    }
}

/// Keys of `list` and the last value of each.
pub proof fn lemma_last_wins<V>(list: Seq<(Seq<char>, V)>)
    ensures
        forall|k: Seq<char>|
            #![trigger last_wins(list).contains_key(k)]
            last_wins(list).contains_key(k) ==> exists|j: int| 0 <= j < list.len() && list[j].0 == k,
        forall|j: int| 0 <= j < list.len() ==> last_wins(list).contains_key(#[trigger] list[j].0),
        forall|j: int|
            0 <= j < list.len() && (forall|m: int| j < m < list.len() ==> list[m].0 != list[j].0)
                ==> last_wins(list)[#[trigger] list[j].0] == list[j].1,
    decreases list.len(),
{
    if list.len() > 0 {
        let prev = list.drop_last();
        lemma_last_wins(prev);
        let m = last_wins(list);
        assert forall|k: Seq<char>| #![trigger m.contains_key(k)] m.contains_key(k) implies exists|j: int|
            0 <= j < list.len() && list[j].0 == k by {
            if k == list.last().0 {
                assert(list[list.len() - 1].0 == k);
            } else {
                assert(last_wins(prev).contains_key(k));
                let j = choose|j: int| 0 <= j < prev.len() && prev[j].0 == k;
                assert(list[j] == prev[j]);
            }
        }
        assert forall|j: int| 0 <= j < list.len() implies m.contains_key(#[trigger] list[j].0) by {
            if j < list.len() - 1 {
                assert(list[j] == prev[j]);
                assert(last_wins(prev).contains_key(prev[j].0));
            }
        }
        assert forall|j: int|
            0 <= j < list.len() && (forall|n: int| j < n < list.len() ==> list[n].0 != list[j].0) implies m[#[trigger] list[j].0]
                == list[j].1 by {
            if j < list.len() - 1 {
                assert(list[j] == prev[j]);
                assert forall|n: int| j < n < prev.len() implies prev[n].0 != prev[j].0 by {
                    assert(prev[n] == list[n]);
                }
                assert(list[list.len() - 1].0 != list[j].0);
            }
        }
    }
}

/// The value bound to `key` among parallel key and value sequences, if any.
pub open spec fn get_in<V>(keys: Seq<Seq<char>>, vals: Seq<V>, key: Seq<char>) -> Option<V> {
    if exists|i: int| 0 <= i < keys.len() && keys[i] == key {
        Some(vals[choose|i: int| 0 <= i < keys.len() && keys[i] == key])
    } else {
        None
    }
}

/// The views of a list of (text, value) pairs.
pub open spec fn pairs_view<V>(list: Seq<(String, V)>) -> Seq<(Seq<char>, V)> {
    list.map_values(|p: (String, V)| (p.0@, p.1))
}

/// A map from texts to values, keys in strictly increasing order.
pub struct TextMap<V> {
    keys: Vec<Vec<char>>,
    vals: Vec<V>,
}

impl<V: Copy> TextMap<V> {
    /// Keys and values agree in length, keys strictly increase.
    pub closed spec fn wf(self) -> bool {
        &&& self.keys@.len() == self.vals@.len()
        &&& forall|i: int, j: int|
            0 <= i < j < self.keys@.len() ==> seq_lt(self.keys@[i]@, self.keys@[j]@)
    }

    /// The keys, in increasing order.
    pub closed spec fn keys(self) -> Seq<Seq<char>> {
        self.keys@.map_values(|k: Vec<char>| k@)
    }

    /// The values, in key order.
    pub closed spec fn vals(self) -> Seq<V> {
        self.vals@
    }

    /// Whether this map holds exactly the bindings of `m`.
    pub open spec fn represents(self, m: Map<Seq<char>, V>) -> bool {
        &&& self.keys().len() == self.vals().len()
        &&& forall|i: int|
            0 <= i < self.keys().len() ==> m.contains_key(#[trigger] self.keys()[i]) && m[self.keys()[i]]
                == self.vals()[i]
        &&& forall|k: Seq<char>|
            #![trigger m.contains_key(k)]
            m.contains_key(k) ==> exists|i: int| 0 <= i < self.keys().len() && self.keys()[i] == k
    }

    /// The value bound to `key`, if any.
    pub open spec fn get(self, key: Seq<char>) -> Option<V> {
        get_in(self.keys(), self.vals(), key)
    }

    /// Keys are strictly increasing.
    pub proof fn lemma_sorted(&self)
        requires
            self.wf(),
        ensures
            self.keys().len() == self.vals().len(),
            forall|i: int, j: int| 0 <= i < j < self.keys().len() ==> seq_lt(self.keys()[i], self.keys()[j]),
    {
        assert forall|i: int, j: int| 0 <= i < j < self.keys().len() implies seq_lt(self.keys()[i], self.keys()[j]) by {
            assert(self.keys()[i] == self.keys@[i]@);
            assert(self.keys()[j] == self.keys@[j]@);
        }
    }

    /// The value at a position is the one bound to its key.
    pub proof fn lemma_get_at(&self, at: int)
        requires
            self.wf(),
            0 <= at < self.keys().len(),
        ensures
            self.get(self.keys()[at]) == Some(self.vals()[at]),
    {
        self.lemma_sorted();
        let key = self.keys()[at];
        let ks = self.keys();
        assert(ks[at] == key);
        assert(exists|i: int| 0 <= i < ks.len() && ks[i] == key);
        let j = choose|i: int| 0 <= i < ks.len() && ks[i] == key;
        lemma_seq_lt_irreflexive(key);
        if at < j {
            assert(seq_lt(ks[at], ks[j]));
        } else if j < at {
            assert(seq_lt(ks[j], ks[at]));
        }
        assert(j == at);
        assert(get_in(ks, self.vals(), key) == Some(self.vals()[j]));
    }

    /// A map represents a single map.
    pub proof fn lemma_get_represented(&self, m: Map<Seq<char>, V>, k: Seq<char>)
        requires
            self.wf(),
            self.represents(m),
        ensures
            self.get(k) == if m.contains_key(k) { Some(m[k]) } else { None::<V> },
    {
        if m.contains_key(k) {
            let i = choose|i: int| 0 <= i < self.keys().len() && self.keys()[i] == k;
            self.lemma_get_at(i);
        } else {
            if exists|i: int| 0 <= i < self.keys().len() && self.keys()[i] == k {
                let i = choose|i: int| 0 <= i < self.keys().len() && self.keys()[i] == k;
                assert(m.contains_key(self.keys()[i]));
            }
        }
    }

    /// A map without bindings.
    pub fn empty() -> (t: TextMap<V>)
        ensures
            t.wf(),
            t.keys().len() == 0,
            t.represents(Map::empty()),
    {
        let t = TextMap { keys: Vec::new(), vals: Vec::new() };
        assert(t.keys() =~= Seq::<Seq<char>>::empty());
        t
    }

    /// The number of bindings.
    pub fn len(&self) -> (r: usize)
        ensures
            r == self.keys().len(),
    {
        self.keys.len()
    }

    /// The key at position `i`.
    pub fn key_at(&self, i: usize) -> (r: &Vec<char>)
        requires
            i < self.keys().len(),
        ensures
            r@ == self.keys()[i as int],
    {
        &self.keys[i]
    }

    /// The value bound to `key`, if any.
    pub fn find(&self, key: &[char]) -> (r: Option<V>)
        requires
            self.wf(),
        ensures
            r == self.get(key@),
    {
        let mut lo: usize = 0;
        let mut hi: usize = self.keys.len();
        while lo < hi
            invariant
                self.wf(),
                lo <= hi <= self.keys@.len(),
                forall|i: int| 0 <= i < lo ==> seq_lt(self.keys@[i]@, key@),
                forall|i: int| hi <= i < self.keys@.len() ==> seq_lt(key@, self.keys@[i]@),
            decreases hi - lo,
        {
            let mid = lo + (hi - lo) / 2;
            let k = &self.keys[mid];
            if chars_less(k.as_slice(), key) {
                proof {
                    assert forall|i: int| 0 <= i < mid + 1 implies seq_lt(self.keys@[i]@, key@) by {
                        if i < mid {
                            lemma_seq_lt_transitive(self.keys@[i]@, self.keys@[mid as int]@, key@);
                        }
                    }
                }
                lo = mid + 1;
            } else if chars_less(key, k.as_slice()) {
                proof {
                    assert forall|i: int| mid <= i < self.keys@.len() implies seq_lt(key@, self.keys@[i]@) by {
                        if i > mid {
                            lemma_seq_lt_transitive(key@, self.keys@[mid as int]@, self.keys@[i]@);
                        }
                    }
                }
                hi = mid;
            } else {
                proof {
                    if k@ != key@ {
                        lemma_seq_lt_total(k@, key@);
                    }
                    assert(self.keys()[mid as int] == key@);
                    self.lemma_get_at(mid as int);
                }
                return Some(self.vals[mid]);
            }
        }
        proof {
            if exists|i: int| 0 <= i < self.keys().len() && self.keys()[i] == key@ {
                let i = choose|i: int| 0 <= i < self.keys().len() && self.keys()[i] == key@;
                assert(self.keys@[i]@ == key@);
                lemma_seq_lt_irreflexive(key@);
            }
        }
        None
    }

    /// The map of a list of bindings, a later binding of a key replacing an
    /// earlier one.
    #[verifier::rlimit(40)]
    pub fn from_list(list: &Vec<(String, V)>) -> (t: TextMap<V>)
        ensures
            t.wf(),
            t.represents(last_wins(pairs_view(list@))),
    {
        let n = list.len();
        let ghost lv = pairs_view(list@);
        let mut sk: Vec<SortKey> = Vec::new();
        for i in 0..n
            invariant
                n == list@.len(),
                lv == pairs_view(list@),
                sk@.len() == i,
                forall|m: int| 0 <= m < i ==> (#[trigger] sk@[m]).rank == 0 && sk@[m].text@ == lv[m].0,
        {
            sk.push(SortKey { rank: 0, text: chars_of(list[i].0.as_str()) });
        }
        let ghost kv = key_views(sk@);
        assert forall|m: int| 0 <= m < n implies (#[trigger] kv[m]).0 == 0 && kv[m].1 == lv[m].0 by {
            assert(kv[m] == (sk@[m].rank, sk@[m].text@));
        }
        let pos = last_of_each_key(&sk);
        let mut keys: Vec<Vec<char>> = Vec::new();
        let mut vals: Vec<V> = Vec::new();
        let q = pos.len();
        for t in 0..q
            invariant
                q == pos@.len(),
                n == list@.len(),
                n == sk@.len(),
                lv == pairs_view(list@),
                kv == key_views(sk@),
                forall|m: int| 0 <= m < n ==> (#[trigger] kv[m]).1 == lv[m].0,
                forall|u: int| 0 <= u < q ==> #[trigger] pos@[u] < n,
                keys@.len() == t,
                vals@.len() == t,
                forall|u: int| 0 <= u < t ==> #[trigger] keys@[u]@ == kv[pos@[u] as int].1,
                forall|u: int| 0 <= u < t ==> #[trigger] vals@[u] == lv[pos@[u] as int].1,
        {
            let j = pos[t];
            assert(kv[j as int] == (sk@[j as int].rank, sk@[j as int].text@));
            let ghost k0 = keys@;
            let ghost v0 = vals@;
            keys.push(chars_copy(sk[j].text.as_slice()));
            vals.push(list[j].1);
            proof {
                assert forall|u: int| 0 <= u < t + 1 implies #[trigger] keys@[u]@ == kv[pos@[u] as int].1 by {
                    if u < t {
                        assert(keys@[u] == k0[u]);
                    }
                }
                assert forall|u: int| 0 <= u < t + 1 implies #[trigger] vals@[u] == lv[pos@[u] as int].1 by {
                    if u < t {
                        assert(vals@[u] == v0[u]);
                    }
                }
            }
        }
        let ghost ks = keys@;
        let ghost vs = vals@;
        let t = TextMap { keys, vals };
        proof {
            assert(t.keys@ == ks && t.vals@ == vs);
            let mp = last_wins(lv);
            lemma_last_wins(lv);
            assert forall|a: int, b: int| 0 <= a < b < t.keys@.len() implies seq_lt(t.keys@[a]@, t.keys@[b]@) by {
                assert(pos@[a] < n && pos@[b] < n);
                assert(ks[a]@ == kv[pos@[a] as int].1);
                assert(ks[b]@ == kv[pos@[b] as int].1);
            }
            assert forall|i: int| 0 <= i < t.keys().len() implies mp.contains_key(#[trigger] t.keys()[i])
                && mp[t.keys()[i]] == t.vals()[i] by {
                let j = pos@[i] as int;
                assert(ks[i]@ == kv[j].1);
                assert(vs[i] == lv[j].1);
                assert(t.keys()[i] == lv[j].0);
                assert forall|m: int| j < m < lv.len() implies lv[m].0 != lv[j].0 by {
                    assert(kv[m].1 != kv[j].1);
                }
            }
            assert forall|k: Seq<char>| #![trigger mp.contains_key(k)] mp.contains_key(k) implies exists|i: int|
                0 <= i < t.keys().len() && t.keys()[i] == k by {
                let j = choose|j: int| 0 <= j < lv.len() && lv[j].0 == k;
                assert(kv[j].1 == key_views(sk@)[j].1);
                assert(texts_at(key_views(sk@), pos@).contains(key_views(sk@)[j].1));
                let u = choose|u: int| 0 <= u < pos@.len() && texts_at(key_views(sk@), pos@)[u] == key_views(sk@)[j].1;
                assert(ks[u]@ == kv[pos@[u] as int].1);
                assert(t.keys()[u] == k);
            }
        }
        t
    }
}

} // verus!
