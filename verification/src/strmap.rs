use vstd::prelude::*;

use crate::text::{compare_str, KeyOrder, seq_less, lemma_less_total, lemma_less_transitive,
    lemma_less_irreflexive, lemma_less_asymmetric};

verus! {

/// Strictly increasing in the order of `seq_less`.
pub open spec fn strictly_sorted(keys: Seq<Seq<char>>) -> bool {
    forall|i: int, j: int| 0 <= i < j < keys.len() ==> seq_less(#[trigger] keys[i], #[trigger] keys[j])
}

/// A map from strings to values that keeps its keys in increasing order, so that
/// the n-th key is well defined (as in a `BTreeMap<String, V>`).
pub struct StrMap<V> {
    entries: Vec<(String, V)>,
}

impl<V> StrMap<V> {
    /// The keys, in increasing order.
    pub closed spec fn keys(&self) -> Seq<Seq<char>> {
        Seq::new(self.entries@.len(), |i: int| self.entries@[i].0@)
    }

    /// The value stored at each position, in key order.
    pub closed spec fn vals(&self) -> Seq<V> {
        Seq::new(self.entries@.len(), |i: int| self.entries@[i].1)
    }

    pub closed spec fn wf(&self) -> bool {
        strictly_sorted(self.keys())
    }

    /// The map from keys to values.
    pub open spec fn view(&self) -> Map<Seq<char>, V> {
        Map::new(
            |k: Seq<char>| self.keys().contains(k),
            |k: Seq<char>| self.vals()[self.keys().index_of(k)],
        )
    }

    /// The keys are the domain of the map, each stored with its value.
    pub proof fn lemma_view(&self)
        requires
            self.wf(),
        ensures
            strictly_sorted(self.keys()),
            self.keys().len() == self.vals().len(),
            forall|i: int| #![trigger self.keys()[i]] 0 <= i < self.keys().len() ==> self@.contains_key(self.keys()[i])
                && self@[self.keys()[i]] == self.vals()[i],
            forall|k: Seq<char>| #[trigger] self@.contains_key(k) <==> self.keys().contains(k),
            self@.dom().finite(),
            self@.dom().len() == self.keys().len(),
    {
        assert forall|i: int| #![trigger self.keys()[i]] 0 <= i < self.keys().len() implies self@.contains_key(self.keys()[i])
            && self@[self.keys()[i]] == self.vals()[i] by {
            let k = self.keys()[i];
            assert(self.keys().contains(k));
            let j = self.keys().index_of(k);
            if j != i {
                if j < i {
                    lemma_less_irreflexive(k);
                } else {
                    lemma_less_irreflexive(k);
                }
            }
        }
        lemma_keys_unique(self.keys());
        self.keys().unique_seq_to_set();
        assert(self@.dom() =~= self.keys().to_set());
    }

    pub fn new() -> (m: Self)
        ensures
            m.wf(),
            m.keys() == Seq::<Seq<char>>::empty(),
            m@ == Map::<Seq<char>, V>::empty(),
    {
        let m = StrMap { entries: Vec::new() };
        assert(m.keys() =~= Seq::<Seq<char>>::empty());
        assert(m@ =~= Map::<Seq<char>, V>::empty());
        m
    }

    pub fn len(&self) -> (n: usize)
        ensures
            n == self.keys().len(),
    {
        self.entries.len()
    }

    /// Where `k` stands (`Ok`) or would stand (`Err`) in the key order.
    pub fn find(&self, k: &str) -> (r: Result<usize, usize>)
        requires
            self.wf(),
        ensures
            r matches Ok(i) ==> i < self.keys().len() && self.keys()[i as int] == k@,
            r matches Err(p) ==> p <= self.keys().len() && !self.keys().contains(k@)
                && (forall|j: int| 0 <= j < p ==> seq_less(#[trigger] self.keys()[j], k@))
                && (forall|j: int| p <= j < self.keys().len() ==> seq_less(k@, #[trigger] self.keys()[j])),
    {
        let mut i: usize = 0;
        while i < self.entries.len()
            invariant
                self.wf(),
                i <= self.keys().len(),
                self.keys().len() == self.entries@.len(),
                forall|j: int| 0 <= j < i ==> seq_less(#[trigger] self.keys()[j], k@),
            decreases self.entries@.len() - i,
        {
            assert(self.keys()[i as int] == self.entries@[i as int].0@);
            match compare_str(self.entries[i].0.as_str(), k) {
                KeyOrder::Less => {},
                KeyOrder::Equal => {
                    return Ok(i);
                },
                KeyOrder::Greater => {
                    proof {
                        assert forall|j: int| i <= j < self.keys().len() implies seq_less(k@, #[trigger] self.keys()[j]) by {
                            if j > i {
                                lemma_less_transitive(k@, self.keys()[i as int], self.keys()[j]);
                            }
                        }
                        self.lemma_not_contains(k@, i as int);
                    }
                    return Err(i);
                },
            }
            i = i + 1;
        }
        proof {
            self.lemma_not_contains(k@, i as int);
        }
        Err(i)
    }

    proof fn lemma_not_contains(&self, k: Seq<char>, p: int)
        requires
            0 <= p <= self.keys().len(),
            forall|j: int| 0 <= j < p ==> seq_less(#[trigger] self.keys()[j], k),
            forall|j: int| p <= j < self.keys().len() ==> seq_less(k, #[trigger] self.keys()[j]),
        ensures
            !self.keys().contains(k),
    {
        if self.keys().contains(k) {
            let j = self.keys().index_of(k);
            lemma_less_irreflexive(k);
            if j < p {
                assert(seq_less(self.keys()[j], k));
            } else {
                assert(seq_less(k, self.keys()[j]));
            }
        }
    }

    pub fn contains_key(&self, k: &str) -> (b: bool)
        requires
            self.wf(),
        ensures
            b == self@.contains_key(k@),
    {
        proof { self.lemma_view(); }
        match self.find(k) {
            Ok(_) => true,
            Err(_) => false,
        }
    }

    pub fn get(&self, k: &str) -> (r: Option<&V>)
        requires
            self.wf(),
        ensures
            r matches Some(v) ==> self@.contains_key(k@) && *v == self@[k@],
            r is None ==> !self@.contains_key(k@),
    {
        proof { self.lemma_view(); }
        match self.find(k) {
            Ok(i) => {
                assert(self.vals()[i as int] == self.entries@[i as int].1);
                assert(self@[self.keys()[i as int]] == self.vals()[i as int]);
                Some(&self.entries[i].1)
            },
            Err(_) => None,
        }
    }

    /// The key at position `n` in key order.
    pub fn key_at(&self, n: usize) -> (r: &String)
        requires
            n < self.keys().len(),
        ensures
            r@ == self.keys()[n as int],
    {
        &self.entries[n].0
    }

    /// The value at position `n` in key order.
    pub fn value_at(&self, n: usize) -> (r: &V)
        requires
            n < self.keys().len(),
        ensures
            *r == self.vals()[n as int],
    {
        &self.entries[n].1
    }

    /// Puts `v` under `k`, handing back what was there before.
    pub fn insert(&mut self, k: String, v: V) -> (r: Option<V>)
        requires
            old(self).wf(),
        ensures
            final(self).wf(),
            final(self)@ == old(self)@.insert(k@, v),
            r matches Some(o) ==> old(self)@.contains_key(k@) && o == old(self)@[k@],
            r is None ==> !old(self)@.contains_key(k@),
            old(self)@.contains_key(k@) ==> final(self).keys() == old(self).keys(),
            !old(self)@.contains_key(k@) ==> exists|p: int| 0 <= p <= old(self).keys().len()
                && final(self).keys() == old(self).keys().insert(p, k@),
    {
        proof { self.lemma_view(); }
        let ghost old_keys = self.keys();
        let ghost old_vals = self.vals();
        let ghost kv = k@;
        match self.find(k.as_str()) {
            Ok(i) => {
                let (_, o) = self.entries.remove(i);
                self.entries.insert(i, (k, v));
                proof {
                    assert(self.keys() =~= old_keys);
                    assert(self.vals() =~= old_vals.update(i as int, v));
                    self.lemma_view();
                    assert(self@ =~= old(self)@.insert(kv, v)) by {
                        assert forall|q: Seq<char>| #[trigger] self@.contains_key(q) implies old(self)@.insert(kv, v).contains_key(q) && self@[q] == old(self)@.insert(kv, v)[q] by {
                            let j = self.keys().index_of(q);
                            assert(self.keys()[j] == q);
                        }
                        assert forall|q: Seq<char>| old(self)@.insert(kv, v).contains_key(q) implies #[trigger] self@.contains_key(q) by {
                            if q != kv {
                                let j = old_keys.index_of(q);
                                assert(self.keys()[j] == q);
                            }
                        }
                    }
                }
                Some(o)
            },
            Err(p) => {
                self.entries.insert(p, (k, v));
                proof {
                    assert(self.keys() =~= old_keys.insert(p as int, kv));
                    assert(self.vals() =~= old_vals.insert(p as int, v));
                    assert(strictly_sorted(self.keys())) by {
                        assert forall|i: int, j: int| 0 <= i < j < self.keys().len() implies seq_less(#[trigger] self.keys()[i], #[trigger] self.keys()[j]) by {
                            if i < p && j > p {
                                lemma_less_transitive(self.keys()[i], kv, self.keys()[j]);
                            }
                        }
                    }
                    self.lemma_view();
                    assert(self@ =~= old(self)@.insert(kv, v)) by {
                        assert forall|q: Seq<char>| #[trigger] self@.contains_key(q) implies old(self)@.insert(kv, v).contains_key(q) && self@[q] == old(self)@.insert(kv, v)[q] by {
                            let j = self.keys().index_of(q);
                            assert(self.keys()[j] == q);
                            assert(self@[q] == self.vals()[j]);
                            if j < p {
                                assert(old_keys[j] == q);
                                assert(old(self)@[q] == old_vals[j]);
                                assert(q != kv) by { lemma_less_irreflexive(kv); }
                            } else if j > p {
                                assert(old_keys[j - 1] == q);
                                assert(old(self)@[q] == old_vals[j - 1]);
                                assert(q != kv) by { lemma_less_irreflexive(kv); }
                            } else {
                                assert(self.vals()[j] == v);
                            }
                        }
                        assert forall|q: Seq<char>| old(self)@.insert(kv, v).contains_key(q) implies #[trigger] self@.contains_key(q) by {
                            if q != kv {
                                let j = old_keys.index_of(q);
                                if j < p {
                                    assert(self.keys()[j] == q);
                                } else {
                                    assert(self.keys()[j + 1] == q);
                                }
                            } else {
                                assert(self.keys()[p as int] == q);
                            }
                        }
                    }
                }
                None
            },
        }
    }

    /// Takes the entry under `k` out of the map.
    pub fn remove(&mut self, k: &str) -> (r: Option<V>)
        requires
            old(self).wf(),
        ensures
            final(self).wf(),
            final(self)@ == old(self)@.remove(k@),
            r matches Some(o) ==> old(self)@.contains_key(k@) && o == old(self)@[k@],
            r is None ==> !old(self)@.contains_key(k@) && final(self).keys() == old(self).keys(),
            r is Some ==> exists|p: int| 0 <= p < old(self).keys().len()
                && final(self).keys() == old(self).keys().remove(p),
    {
        proof { self.lemma_view(); }
        let ghost old_keys = self.keys();
        let ghost old_vals = self.vals();
        match self.find(k) {
            Ok(i) => {
                let (_, o) = self.entries.remove(i);
                proof {
                    assert(self.keys() =~= old_keys.remove(i as int));
                    assert(self.vals() =~= old_vals.remove(i as int));
                    assert(strictly_sorted(self.keys())) by {
                        assert forall|a: int, b: int| 0 <= a < b < self.keys().len() implies seq_less(#[trigger] self.keys()[a], #[trigger] self.keys()[b]) by {
                            if a < i && b >= i {
                                assert(self.keys()[b] == old_keys[b + 1]);
                            }
                        }
                    }
                    self.lemma_view();
                    assert(self@ =~= old(self)@.remove(k@)) by {
                        assert forall|q: Seq<char>| #[trigger] self@.contains_key(q) implies old(self)@.remove(k@).contains_key(q) && self@[q] == old(self)@.remove(k@)[q] by {
                            let j = self.keys().index_of(q);
                            assert(self.keys()[j] == q);
                            if j < i {
                                assert(old_keys[j] == q);
                            } else {
                                assert(old_keys[j + 1] == q);
                            }
                            lemma_keys_unique(old_keys);
                        }
                        assert forall|q: Seq<char>| old(self)@.remove(k@).contains_key(q) implies #[trigger] self@.contains_key(q) by {
                            let j = old_keys.index_of(q);
                            assert(j != i);
                            if j < i {
                                assert(self.keys()[j] == q);
                            } else {
                                assert(self.keys()[j - 1] == q);
                            }
                        }
                    }
                }
                Some(o)
            },
            Err(_) => {
                assert(self@ =~= old(self)@.remove(k@));
                None
            },
        }
    }

    /// A copy of every key, in key order.
    pub fn key_list(&self) -> (r: Vec<String>)
        ensures
            r@.len() == self.keys().len(),
            forall|i: int| 0 <= i < r@.len() ==> #[trigger] r@[i]@ == self.keys()[i],
    {
        let mut r: Vec<String> = Vec::new();
        let mut i: usize = 0;
        while i < self.entries.len()
            invariant
                i <= self.entries@.len(),
                r@.len() == i,
                forall|j: int| 0 <= j < i ==> #[trigger] r@[j]@ == self.keys()[j],
            decreases self.entries@.len() - i,
        {
            r.push(self.entries[i].0.clone());
            i = i + 1;
        }
        r
    }
}

/// Strictly sorted keys are pairwise distinct.
pub proof fn lemma_keys_unique(keys: Seq<Seq<char>>)
    requires
        strictly_sorted(keys),
    ensures
        keys.no_duplicates(),
{
    assert forall|i: int, j: int| 0 <= i < keys.len() && 0 <= j < keys.len() && i != j implies keys[i] != keys[j] by {
        lemma_less_irreflexive(keys[i]);
        if i < j {
            assert(seq_less(keys[i], keys[j]));
        } else {
            assert(seq_less(keys[j], keys[i]));
        }
    }
}

/// The key order of a map is fixed by its set of keys: two strictly sorted sequences
/// with the same elements are equal.
pub proof fn lemma_sorted_unique(a: Seq<Seq<char>>, b: Seq<Seq<char>>)
    requires
        strictly_sorted(a),
        strictly_sorted(b),
        a.to_set() == b.to_set(),
    ensures
        a == b,
    decreases a.len(),
{
    lemma_keys_unique(a);
    lemma_keys_unique(b);
    a.unique_seq_to_set();
    b.unique_seq_to_set();
    if a.len() > 0 {
        let x = a.last();
        let y = b.last();
        assert(a.to_set().contains(x));
        assert(b.contains(x));
        assert(a.contains(y)) by { assert(b.to_set().contains(y)); }
        if x != y {
            let ix = b.index_of(x);
            let iy = a.index_of(y);
            lemma_less_asymmetric(x, y);
            assert(seq_less(y, x)) by { if iy < a.len() - 1 { assert(seq_less(a[iy], a[a.len() - 1])); } }
            assert(seq_less(x, y)) by { if ix < b.len() - 1 { assert(seq_less(b[ix], b[b.len() - 1])); } }
        }
        let a2 = a.drop_last();
        let b2 = b.drop_last();
        assert(strictly_sorted(a2));
        assert(strictly_sorted(b2));
        assert(a2.to_set() =~= b2.to_set()) by {
            assert forall|z: Seq<char>| a2.to_set().contains(z) implies b2.to_set().contains(z) by {
                let i = a2.index_of(z);
                assert(a.contains(z));
                assert(b.contains(z)) by { assert(a.to_set().contains(z)); }
                let j = b.index_of(z);
                if j == b.len() - 1 {
                    assert(z == x);
                    assert(a[i] == a[a.len() - 1]);
                }
                assert(b2[j] == z);
            }
            assert forall|z: Seq<char>| b2.to_set().contains(z) implies a2.to_set().contains(z) by {
                let j = b2.index_of(z);
                assert(b.contains(z));
                assert(a.contains(z)) by { assert(b.to_set().contains(z)); }
                let i = a.index_of(z);
                if i == a.len() - 1 {
                    assert(z == y);
                    assert(b[j] == b[b.len() - 1]);
                }
                assert(a2[i] == z);
            }
        }
        lemma_sorted_unique(a2, b2);
        assert(a =~= a2.push(x));
        assert(b =~= b2.push(y));
    } else {
        if b.len() > 0 {
            assert(b.to_set().contains(b[0]));
        }
        assert(a =~= b);
    }
}

} // verus!
