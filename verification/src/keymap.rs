//! An ordered map keyed by byte strings.

use crate::order::{
    ascending_keys, compare_bytes, keys_rising, lemma_ascending_keys_is, lemma_lex_asymmetric,
    lemma_lex_total, lemma_lex_transitive, lex_lt, lists_keys, Order,
};
use vstd::prelude::*;

verus! {

/// A map from byte strings to values that is walked in lexicographic order
/// of its keys. A set of byte strings is a `KeyMap<()>`.
#[derive(Clone, Debug)]
pub struct KeyMap<V> {
    keys: Vec<Vec<u8>>,
    vals: Vec<V>,
}

/// An ordered set of byte strings.
pub type KeySet = KeyMap<()>;

impl<V> View for KeyMap<V> {
    type V = Map<Seq<u8>, V>;

    closed spec fn view(&self) -> Map<Seq<u8>, V> {
        Map::new(
            |k: Seq<u8>| self.key_seq().contains(k),
            |k: Seq<u8>| self.vals@[self.key_seq().index_of(k)],
        )
    }
}

impl<V> KeyMap<V> {
    /// The stored keys as byte sequences, in storage order.
    pub closed spec fn key_seq(&self) -> Seq<Seq<u8>> {
        Seq::new(self.keys@.len(), |i: int| self.keys@[i]@)
    }

    /// The representation invariant: one value per key, keys strictly
    /// increasing in lexicographic order.
    pub closed spec fn wf(&self) -> bool {
        &&& self.keys@.len() == self.vals@.len()
        &&& keys_rising(self.key_seq())
    }

    /// The keys of the map in lexicographic order.
    pub open spec fn keys(&self) -> Seq<Seq<u8>> {
        ascending_keys(self@.dom())
    }

    proof fn lemma_repr(&self)
        requires
            self.wf(),
        ensures
            self.keys() == self.key_seq(),
            self.key_seq().len() == self.keys@.len(),
            lists_keys(self.key_seq(), self@.dom()),
            forall|i: int|
                0 <= i < self.keys@.len() ==> self@.contains_key(#[trigger] self.key_seq()[i])
                    && self@[self.key_seq()[i]] == self.vals@[i],
    {
        let ks = self.key_seq();
        assert forall|i: int| 0 <= i < ks.len() implies self@.contains_key(#[trigger] ks[i])
            && self@[ks[i]] == self.vals@[i] by {
            let k = ks[i];
            assert(ks.contains(k));
            let j = ks.index_of(k);
            assert(0 <= j < ks.len() && ks[j] == k);
            if i < j {
                lemma_lex_asymmetric(ks[i], ks[j]);
            }
            if j < i {
                lemma_lex_asymmetric(ks[j], ks[i]);
            }
        }
        assert forall|k: Seq<u8>| self@.dom().contains(k) <==> ks.contains(k) by {}
        lemma_ascending_keys_is(ks, self@.dom());
    }

    /// A well-formed map has a lexicographic enumeration of its keys.
    pub proof fn lemma_keys(&self)
        requires
            self.wf(),
        ensures
            lists_keys(self.keys(), self@.dom()),
    {
        self.lemma_repr();
    }

    /// An empty map.
    pub fn new() -> (m: Self)
        ensures
            m.wf(),
            m@ == Map::<Seq<u8>, V>::empty(),
            m.keys() == Seq::<Seq<u8>>::empty(),
    {
        let m = KeyMap { keys: Vec::new(), vals: Vec::new() };
        proof {
            m.lemma_repr();
            assert(m@ =~= Map::<Seq<u8>, V>::empty());
            assert(m.key_seq() =~= Seq::<Seq<u8>>::empty());
        }
        m
    }

    /// The number of entries.
    pub fn len(&self) -> (n: usize)
        requires
            self.wf(),
        ensures
            n == self.keys().len(),
    {
        proof {
            self.lemma_repr();
        }
        self.keys.len()
    }

    /// Whether the map has no entry.
    pub fn is_empty(&self) -> (b: bool)
        requires
            self.wf(),
        ensures
            b <==> self.keys().len() == 0,
            b <==> self@ == Map::<Seq<u8>, V>::empty(),
    {
        proof {
            self.lemma_repr();
            if self.keys@.len() == 0 {
                assert(self@ =~= Map::<Seq<u8>, V>::empty());
            } else {
                assert(self@.contains_key(self.key_seq()[0]));
            }
        }
        self.keys.len() == 0
    }

    /// The key at position `i` of the lexicographic order.
    pub fn key_at(&self, i: usize) -> (k: &Vec<u8>)
        requires
            self.wf(),
            i < self.keys().len(),
        ensures
            k@ == self.keys()[i as int],
            self@.contains_key(k@),
    {
        proof {
            self.lemma_repr();
            assert(self.key_seq()[i as int] == self.keys@[i as int]@);
        }
        &self.keys[i]
    }

    /// The value at position `i` of the lexicographic order.
    pub fn value_at(&self, i: usize) -> (v: &V)
        requires
            self.wf(),
            i < self.keys().len(),
        ensures
            self@.contains_key(self.keys()[i as int]),
            *v == self@[self.keys()[i as int]],
    {
        proof {
            self.lemma_repr();
        }
        &self.vals[i]
    }

    /// Puts `value` at position `i` of the lexicographic order and hands back
    /// the value that stood there.
    pub fn replace_at(&mut self, i: usize, value: V) -> (r: V)
        requires
            old(self).wf(),
            i < old(self).keys().len(),
        ensures
            old(self)@.contains_key(old(self).keys()[i as int]),
            r == old(self)@[old(self).keys()[i as int]],
            final(self).wf(),
            final(self)@ == old(self)@.insert(old(self).keys()[i as int], value),
            final(self).keys() == old(self).keys(),
    {
        proof {
            self.lemma_repr();
        }
        let ghost before = *self;
        let mut value = value;
        let ghost fresh = value;
        core::mem::swap(&mut self.vals[i], &mut value);
        proof {
            assert(self.key_seq() =~= before.key_seq());
            self.lemma_repr();
            let ks = before.key_seq();
            assert(self@ =~= before@.insert(ks[i as int], fresh)) by {
                assert forall|k: Seq<u8>| self@.contains_key(k) implies #[trigger] self@[k]
                    == before@.insert(ks[i as int], fresh)[k] by {
                    let j = ks.index_of(k);
                    assert(0 <= j < ks.len() && ks[j] == k);
                    assert(self@[self.key_seq()[j]] == self.vals@[j]);
                    assert(before@[ks[j]] == before.vals@[j]);
                }
            }
        }
        value
    }

    /// The number of keys of the map that sort before `key`.
    pub fn count_below(&self, key: &[u8]) -> (n: usize)
        requires
            self.wf(),
        ensures
            n <= self.keys().len(),
            forall|j: int| 0 <= j < n ==> lex_lt(self.keys()[j], key@),
            forall|j: int| n <= j < self.keys().len() ==> !lex_lt(self.keys()[j], key@),
    {
        proof {
            self.lemma_repr();
        }
        let ghost ks = self.key_seq();
        let mut lo: usize = 0;
        let mut hi: usize = self.keys.len();
        while lo < hi
            invariant
                lo <= hi <= self.keys@.len(),
                ks == self.key_seq(),
                ks.len() == self.keys@.len(),
                keys_rising(ks),
                forall|j: int| 0 <= j < lo ==> lex_lt(ks[j], key@),
                forall|j: int| hi <= j < ks.len() ==> !lex_lt(ks[j], key@),
            decreases hi - lo,
        {
            let mid: usize = lo + (hi - lo) / 2;
            assert(ks[mid as int] == self.keys@[mid as int]@);
            match compare_bytes(self.keys[mid].as_slice(), key) {
                Order::Less => {
                    proof {
                        assert forall|j: int| 0 <= j < mid + 1 implies lex_lt(ks[j], key@) by {
                            if j < mid {
                                lemma_lex_transitive(ks[j], ks[mid as int], key@);
                            }
                        }
                    }
                    lo = mid + 1;
                },
                _ => {
                    proof {
                        assert forall|j: int| mid <= j < ks.len() implies !lex_lt(ks[j], key@) by {
                            if mid < j && lex_lt(ks[j], key@) {
                                lemma_lex_transitive(ks[mid as int], ks[j], key@);
                            }
                        }
                    }
                    hi = mid;
                },
            }
        }
        lo
    }

    /// The number of keys of the map that do not sort after `key`.
    pub fn count_upto(&self, key: &[u8]) -> (n: usize)
        requires
            self.wf(),
        ensures
            n <= self.keys().len(),
            forall|j: int| 0 <= j < n ==> !lex_lt(key@, self.keys()[j]),
            forall|j: int| n <= j < self.keys().len() ==> lex_lt(key@, self.keys()[j]),
    {
        let n = self.count_below(key);
        proof {
            self.lemma_repr();
            let ks = self.key_seq();
            assert forall|j: int| 0 <= j < n implies !lex_lt(key@, ks[j]) by {
                lemma_lex_asymmetric(ks[j], key@);
            }
        }
        if n < self.keys.len() {
            assert(self.key_seq()[n as int] == self.keys@[n as int]@);
            match compare_bytes(self.keys[n].as_slice(), key) {
                Order::Equal => {
                    proof {
                        let ks = self.key_seq();
                        assert forall|j: int| n + 1 <= j < ks.len() implies lex_lt(key@, ks[j]) by {
                            assert(lex_lt(ks[n as int], ks[j]));
                        }
                        assert forall|j: int| 0 <= j < n + 1 implies !lex_lt(key@, ks[j]) by {
                            if j == n {
                                crate::order::lemma_lex_irreflexive(key@);
                            }
                        }
                    }
                    n + 1
                },
                _ => {
                    proof {
                        let ks = self.key_seq();
                        assert forall|j: int| n <= j < ks.len() implies lex_lt(key@, ks[j]) by {
                            lemma_lex_total(key@, ks[n as int]);
                            if n < j {
                                lemma_lex_transitive(key@, ks[n as int], ks[j]);
                            }
                        }
                    }
                    n
                },
            }
        } else {
            n
        }
    }

    /// The position of `key` in the lexicographic order, if the map holds it.
    pub fn position(&self, key: &[u8]) -> (r: Option<usize>)
        requires
            self.wf(),
        ensures
            match r {
                Some(i) => i < self.keys().len() && self.keys()[i as int] == key@
                    && self@.contains_key(key@),
                None => !self@.contains_key(key@),
            },
    {
        let n = self.count_below(key);
        proof {
            self.lemma_repr();
        }
        let ghost ks = self.key_seq();
        let mut found: bool = false;
        if n < self.keys.len() {
            assert(ks[n as int] == self.keys@[n as int]@);
            match compare_bytes(self.keys[n].as_slice(), key) {
                Order::Equal => {
                    found = true;
                },
                _ => {},
            }
        }
        if found {
            Some(n)
        } else {
            proof {
                if self@.contains_key(key@) {
                    let j = ks.index_of(key@);
                    assert(0 <= j < ks.len() && ks[j] == key@);
                    crate::order::lemma_lex_irreflexive(key@);
                    if j > n {
                        lemma_lex_total(key@, ks[n as int]);
                        lemma_lex_asymmetric(ks[n as int], ks[j]);
                    }
                }
            }
            None
        }
    }

    /// Whether the map holds `key`.
    pub fn contains_key(&self, key: &[u8]) -> (b: bool)
        requires
            self.wf(),
        ensures
            b == self@.contains_key(key@),
    {
        self.position(key).is_some()
    }

    /// The value stored under `key`.
    pub fn get(&self, key: &[u8]) -> (r: Option<&V>)
        requires
            self.wf(),
        ensures
            match r {
                Some(v) => self@.contains_key(key@) && *v == self@[key@],
                None => !self@.contains_key(key@),
            },
    {
        match self.position(key) {
            Some(i) => Some(self.value_at(i)),
            None => None,
        }
    }

    /// Stores `value` under `key` and hands back what was stored there before.
    pub fn insert(&mut self, key: &[u8], value: V) -> (r: Option<V>)
        requires
            old(self).wf(),
        ensures
            final(self).wf(),
            final(self)@ == old(self)@.insert(key@, value),
            r == (if old(self)@.contains_key(key@) {
                Some(old(self)@[key@])
            } else {
                None
            }),
    {
        let ghost before = *self;
        match self.position(key) {
            Some(i) => Some(self.replace_at(i, value)),
            None => {
                let n = self.count_below(key);
                proof {
                    self.lemma_repr();
                }
                let ghost ks = before.key_seq();
                let owned = vstd::slice::slice_to_vec(key);
                self.keys.insert(n, owned);
                self.vals.insert(n, value);
                proof {
                    let ns = self.key_seq();
                    assert(ns =~= ks.insert(n as int, key@));
                    assert(self.wf()) by {
                        assert forall|i: int, j: int| 0 <= i < j < ns.len() implies lex_lt(
                            ns[i],
                            ns[j],
                        ) by {
                            if j == n {
                                assert(lex_lt(ks[i], key@));
                            } else if i == n {
                                assert(!ks.contains(key@));
                                lemma_lex_total(key@, ks[j - 1]);
                                assert(ks.contains(ks[j - 1]));
                            } else {
                                let a = if i < n { i } else { i - 1 };
                                let b = if j < n { j } else { j - 1 };
                                assert(lex_lt(ks[a], ks[b]));
                            }
                        }
                    }
                    self.lemma_repr();
                    assert(self@ =~= before@.insert(key@, value)) by {
                        assert forall|k: Seq<u8>| self@.contains_key(k) <==> before@.insert(
                            key@,
                            value,
                        ).contains_key(k) by {
                            if self@.contains_key(k) {
                                let j = ns.index_of(k);
                                assert(0 <= j < ns.len() && ns[j] == k);
                                if j < n {
                                    assert(ks[j] == k);
                                } else if j > n {
                                    assert(ks[j - 1] == k);
                                }
                            }
                            if before@.contains_key(k) {
                                let j = ks.index_of(k);
                                assert(0 <= j < ks.len() && ks[j] == k);
                                if j < n {
                                    assert(ns[j] == k);
                                } else {
                                    assert(ns[j + 1] == k);
                                }
                            }
                            if k == key@ {
                                assert(ns[n as int] == k);
                            }
                        }
                        assert forall|k: Seq<u8>| self@.contains_key(k) implies #[trigger] self@[k]
                            == before@.insert(key@, value)[k] by {
                            let j = ns.index_of(k);
                            assert(0 <= j < ns.len() && ns[j] == k);
                            assert(self@[ns[j]] == self.vals@[j]);
                            if j < n {
                                assert(before@[ks[j]] == before.vals@[j]);
                            } else if j > n {
                                assert(before@[ks[j - 1]] == before.vals@[j - 1]);
                            }
                        }
                    }
                }
                None
            },
        }
    }

    /// Removes the entry of `key` and hands back its value.
    pub fn remove(&mut self, key: &[u8]) -> (r: Option<V>)
        requires
            old(self).wf(),
        ensures
            final(self).wf(),
            final(self)@ == old(self)@.remove(key@),
            r == (if old(self)@.contains_key(key@) {
                Some(old(self)@[key@])
            } else {
                None
            }),
    {
        let ghost before = *self;
        match self.position(key) {
            None => {
                proof {
                    assert(self@ =~= before@.remove(key@));
                }
                None
            },
            Some(n) => {
                proof {
                    self.lemma_repr();
                }
                let ghost ks = before.key_seq();
                self.keys.remove(n);
                let value = self.vals.remove(n);
                proof {
                    let ns = self.key_seq();
                    assert(ns =~= ks.remove(n as int));
                    assert(self.wf()) by {
                        assert forall|i: int, j: int| 0 <= i < j < ns.len() implies lex_lt(
                            ns[i],
                            ns[j],
                        ) by {
                            let a = if i < n { i } else { i + 1 };
                            let b = if j < n { j } else { j + 1 };
                            assert(lex_lt(ks[a], ks[b]));
                        }
                    }
                    self.lemma_repr();
                    assert(self@ =~= before@.remove(key@)) by {
                        assert forall|k: Seq<u8>| self@.contains_key(k) <==> before@.remove(
                            key@,
                        ).contains_key(k) by {
                            if self@.contains_key(k) {
                                let j = ns.index_of(k);
                                assert(0 <= j < ns.len() && ns[j] == k);
                                let a = if j < n { j } else { j + 1 };
                                assert(ks[a] == k);
                                if a < n {
                                    lemma_lex_asymmetric(ks[a], ks[n as int]);
                                } else {
                                    lemma_lex_asymmetric(ks[n as int], ks[a]);
                                }
                            }
                            if before@.contains_key(k) && k != key@ {
                                let j = ks.index_of(k);
                                assert(0 <= j < ks.len() && ks[j] == k);
                                if j < n {
                                    assert(ns[j] == k);
                                } else {
                                    assert(ns[j - 1] == k);
                                }
                            }
                        }
                        assert forall|k: Seq<u8>| self@.contains_key(k) implies #[trigger] self@[k]
                            == before@.remove(key@)[k] by {
                            let j = ns.index_of(k);
                            assert(0 <= j < ns.len() && ns[j] == k);
                            assert(self@[ns[j]] == self.vals@[j]);
                            let a = if j < n { j } else { j + 1 };
                            assert(before@[ks[a]] == before.vals@[a]);
                        }
                    }
                }
                Some(value)
            },
        }
    }

    /// Removes every entry.
    pub fn clear(&mut self)
        requires
            old(self).wf(),
        ensures
            final(self).wf(),
            final(self)@ == Map::<Seq<u8>, V>::empty(),
    {
        self.keys.clear();
        self.vals.clear();
        proof {
            self.lemma_repr();
            assert(self@ =~= Map::<Seq<u8>, V>::empty());
        }
    }
}

impl KeyMap<u64> {
    /// A copy of the map.
    pub fn duplicate(&self) -> (r: Self)
        requires
            self.wf(),
        ensures
            r.wf(),
            r@ == self@,
    {
        let mut r: KeyMap<u64> = KeyMap::new();
        let n = self.len();
        let mut i: usize = 0;
        proof {
            self.lemma_keys();
        }
        while i < n
            invariant
                self.wf(),
                lists_keys(self.keys(), self@.dom()),
                n == self.keys().len(),
                i <= n,
                r.wf(),
                forall|k: Seq<u8>| #[trigger]
                    r@.contains_key(k) <==> crate::order::key_among(self.keys(), i as int, k),
                forall|k: Seq<u8>| #[trigger] r@.contains_key(k) ==> r@[k] == self@[k],
            decreases n - i,
        {
            let key = self.key_at(i);
            let value = *self.value_at(i);
            let ghost before = r;
            r.insert(key.as_slice(), value);
            proof {
                assert forall|k: Seq<u8>| #[trigger]
                    r@.contains_key(k) <==> crate::order::key_among(self.keys(), i + 1, k) by {
                    crate::order::lemma_key_among_step(self.keys(), i as int, k);
                    assert(r@.contains_key(k) <==> before@.contains_key(k) || k == key@);
                }
            }
            i += 1;
        }
        proof {
            assert forall|k: Seq<u8>| r@.contains_key(k) <==> self@.contains_key(k) by {
                crate::order::lemma_key_among_all(self.keys(), self@.dom(), k);
            }
            assert(r@ =~= self@);
        }
        r
    }
}

} // verus!
