//! An ordered map keyed by 64-bit identifiers.

use crate::order::{ascending, ids_rising, lemma_ascending_is, lists_ids};
use vstd::prelude::*;

verus! {

/// A map from identifiers to values that is walked in ascending order of
/// identifier. A set of identifiers is an `IdMap<()>`.
#[derive(Clone, Debug)]
pub struct IdMap<V> {
    keys: Vec<u64>,
    vals: Vec<V>,
}

/// An ordered set of identifiers.
pub type IdSet = IdMap<()>;

impl<V> View for IdMap<V> {
    type V = Map<u64, V>;

    closed spec fn view(&self) -> Map<u64, V> {
        Map::new(
            |id: u64| self.keys@.contains(id),
            |id: u64| self.vals@[self.keys@.index_of(id)],
        )
    }
}

impl<V> IdMap<V> {
    /// The representation invariant: one value per identifier, identifiers
    /// strictly increasing.
    pub closed spec fn wf(&self) -> bool {
        &&& self.keys@.len() == self.vals@.len()
        &&& ids_rising(self.keys@)
    }

    /// The identifiers of the map, smallest first.
    pub open spec fn ids(&self) -> Seq<u64> {
        ascending(self@.dom())
    }

    /// The greatest identifier of the map, if it has any.
    pub open spec fn greatest(&self) -> Option<u64> {
        if self.ids().len() == 0 {
            None
        } else {
            Some(self.ids().last())
        }
    }

    proof fn lemma_repr(&self)
        requires
            self.wf(),
        ensures
            self.ids() == self.keys@,
            lists_ids(self.keys@, self@.dom()),
            forall|i: int|
                0 <= i < self.keys@.len() ==> self@.contains_key(#[trigger] self.keys@[i])
                    && self@[self.keys@[i]] == self.vals@[i],
    {
        assert forall|i: int| 0 <= i < self.keys@.len() implies self@.contains_key(
            #[trigger] self.keys@[i],
        ) && self@[self.keys@[i]] == self.vals@[i] by {
            let id = self.keys@[i];
            assert(self.keys@.contains(id));
            let j = self.keys@.index_of(id);
            assert(0 <= j < self.keys@.len() && self.keys@[j] == id);
            assert(i == j);
        }
        assert forall|v: u64| self@.dom().contains(v) <==> self.keys@.contains(v) by {}
        lemma_ascending_is(self.keys@, self@.dom());
    }

    /// A well-formed map has an ascending enumeration of its identifiers.
    pub proof fn lemma_ids(&self)
        requires
            self.wf(),
        ensures
            lists_ids(self.ids(), self@.dom()),
    {
        self.lemma_repr();
    }

    /// An empty map.
    pub fn new() -> (m: Self)
        ensures
            m.wf(),
            m@ == Map::<u64, V>::empty(),
            m.ids() == Seq::<u64>::empty(),
    {
        let m = IdMap { keys: Vec::new(), vals: Vec::new() };
        proof {
            m.lemma_repr();
            assert(m@ =~= Map::<u64, V>::empty());
            assert(m.keys@ =~= Seq::<u64>::empty());
        }
        m
    }

    /// The number of entries.
    pub fn len(&self) -> (n: usize)
        requires
            self.wf(),
        ensures
            n == self.ids().len(),
    {
        proof {
            self.lemma_repr();
        }
        self.keys.len()
    }

    /// Whether the map has no entry.
    pub fn is_empty(&self) -> (b: bool)
        requires
            self.wf(),
        ensures
            b <==> self.ids().len() == 0,
            b <==> self@ == Map::<u64, V>::empty(),
    {
        proof {
            self.lemma_repr();
            if self.keys@.len() == 0 {
                assert(self@ =~= Map::<u64, V>::empty());
            } else {
                assert(self@.contains_key(self.keys@[0]));
            }
        }
        self.keys.len() == 0
    }

    /// The identifier at position `i` of the ascending order.
    pub fn id_at(&self, i: usize) -> (id: u64)
        requires
            self.wf(),
            i < self.ids().len(),
        ensures
            id == self.ids()[i as int],
            self@.contains_key(id),
    {
        proof {
            self.lemma_repr();
        }
        self.keys[i]
    }

    /// The value at position `i` of the ascending order.
    pub fn value_at(&self, i: usize) -> (v: &V)
        requires
            self.wf(),
            i < self.ids().len(),
        ensures
            self@.contains_key(self.ids()[i as int]),
            *v == self@[self.ids()[i as int]],
    {
        proof {
            self.lemma_repr();
        }
        &self.vals[i]
    }

    /// Puts `value` at position `i` of the ascending order and hands back the
    /// value that stood there.
    pub fn replace_at(&mut self, i: usize, value: V) -> (r: V)
        requires
            old(self).wf(),
            i < old(self).ids().len(),
        ensures
            old(self)@.contains_key(old(self).ids()[i as int]),
            r == old(self)@[old(self).ids()[i as int]],
            final(self).wf(),
            final(self)@ == old(self)@.insert(old(self).ids()[i as int], value),
            final(self).ids() == old(self).ids(),
    {
        proof {
            self.lemma_repr();
        }
        let ghost before = *self;
        let mut value = value;
        let ghost fresh = value;
        core::mem::swap(&mut self.vals[i], &mut value);
        proof {
            self.lemma_repr();
            assert(self@ =~= before@.insert(before.keys@[i as int], fresh)) by {
                assert forall|id: u64| self@.contains_key(id) implies #[trigger] self@[id]
                    == before@.insert(before.keys@[i as int], fresh)[id] by {
                    let j = before.keys@.index_of(id);
                    assert(0 <= j < before.keys@.len() && before.keys@[j] == id);
                    assert(self@[self.keys@[j]] == self.vals@[j]);
                    assert(before@[before.keys@[j]] == before.vals@[j]);
                }
            }
        }
        value
    }

    /// The number of identifiers of the map that are smaller than `id`.
    pub fn count_below(&self, id: u64) -> (n: usize)
        requires
            self.wf(),
        ensures
            n <= self.ids().len(),
            forall|j: int| 0 <= j < n ==> self.ids()[j] < id,
            forall|j: int| n <= j < self.ids().len() ==> self.ids()[j] >= id,
    {
        proof {
            self.lemma_repr();
        }
        let mut lo: usize = 0;
        let mut hi: usize = self.keys.len();
        while lo < hi
            invariant
                lo <= hi <= self.keys@.len(),
                ids_rising(self.keys@),
                forall|j: int| 0 <= j < lo ==> self.keys@[j] < id,
                forall|j: int| hi <= j < self.keys@.len() ==> self.keys@[j] >= id,
            decreases hi - lo,
        {
            let mid: usize = lo + (hi - lo) / 2;
            if self.keys[mid] < id {
                lo = mid + 1;
            } else {
                hi = mid;
            }
        }
        lo
    }

    /// The number of identifiers of the map that are at most `id`.
    pub fn count_upto(&self, id: u64) -> (n: usize)
        requires
            self.wf(),
        ensures
            n <= self.ids().len(),
            forall|j: int| 0 <= j < n ==> self.ids()[j] <= id,
            forall|j: int| n <= j < self.ids().len() ==> self.ids()[j] > id,
    {
        let n = self.count_below(id);
        proof {
            self.lemma_repr();
        }
        if n < self.keys.len() && self.keys[n] == id {
            n + 1
        } else {
            n
        }
    }

    /// The position of `id` in the ascending order, if the map holds it.
    pub fn position(&self, id: u64) -> (r: Option<usize>)
        requires
            self.wf(),
        ensures
            match r {
                Some(i) => i < self.ids().len() && self.ids()[i as int] == id
                    && self@.contains_key(id),
                None => !self@.contains_key(id),
            },
    {
        let n = self.count_below(id);
        proof {
            self.lemma_repr();
        }
        if n < self.keys.len() && self.keys[n] == id {
            Some(n)
        } else {
            proof {
                if self@.contains_key(id) {
                    let j = self.keys@.index_of(id);
                    assert(0 <= j < self.keys@.len() && self.keys@[j] == id);
                }
            }
            None
        }
    }

    /// Whether the map holds `id`.
    pub fn contains_key(&self, id: u64) -> (b: bool)
        requires
            self.wf(),
        ensures
            b == self@.contains_key(id),
    {
        self.position(id).is_some()
    }

    /// The value stored under `id`.
    pub fn get(&self, id: u64) -> (r: Option<&V>)
        requires
            self.wf(),
        ensures
            match r {
                Some(v) => self@.contains_key(id) && *v == self@[id],
                None => !self@.contains_key(id),
            },
    {
        match self.position(id) {
            Some(i) => Some(self.value_at(i)),
            None => None,
        }
    }

    /// The greatest identifier of the map.
    pub fn last_id(&self) -> (r: Option<u64>)
        requires
            self.wf(),
        ensures
            r == self.greatest(),
    {
        proof {
            self.lemma_repr();
        }
        let n = self.keys.len();
        if n == 0 {
            None
        } else {
            Some(self.keys[n - 1])
        }
    }

    /// Stores `value` under `id` and hands back what was stored there before.
    pub fn insert(&mut self, id: u64, value: V) -> (r: Option<V>)
        requires
            old(self).wf(),
        ensures
            final(self).wf(),
            final(self)@ == old(self)@.insert(id, value),
            r == (if old(self)@.contains_key(id) {
                Some(old(self)@[id])
            } else {
                None
            }),
    {
        let n = self.count_below(id);
        proof {
            self.lemma_repr();
        }
        let ghost before = *self;
        if n < self.keys.len() && self.keys[n] == id {
            let mut value = value;
            let ghost fresh = value;
            core::mem::swap(&mut self.vals[n], &mut value);
            proof {
                self.lemma_repr();
                assert(self@ =~= before@.insert(id, fresh)) by {
                    assert forall|k: u64| self@.contains_key(k) implies #[trigger] self@[k]
                        == before@.insert(id, fresh)[k] by {
                        let j = before.keys@.index_of(k);
                        assert(0 <= j < before.keys@.len() && before.keys@[j] == k);
                        assert(self@[self.keys@[j]] == self.vals@[j]);
                        assert(before@[before.keys@[j]] == before.vals@[j]);
                    }
                }
            }
            Some(value)
        } else {
            proof {
                if before@.contains_key(id) {
                    let j = before.keys@.index_of(id);
                    assert(0 <= j < before.keys@.len() && before.keys@[j] == id);
                }
            }
            self.keys.insert(n, id);
            self.vals.insert(n, value);
            proof {
                assert(self.wf()) by {
                    assert forall|i: int, j: int| 0 <= i < j < self.keys@.len() implies self.keys@[i]
                        < self.keys@[j] by {
                        let a = if i < n { i } else { i - 1 };
                        let b = if j < n { j } else { j - 1 };
                        if i != n && j != n {
                            assert(before.keys@[a] < before.keys@[b]);
                        }
                    }
                }
                self.lemma_repr();
                assert(self@ =~= before@.insert(id, value)) by {
                    assert forall|k: u64| self@.contains_key(k) <==> before@.insert(
                        id,
                        value,
                    ).contains_key(k) by {
                        if self@.contains_key(k) {
                            let j = self.keys@.index_of(k);
                            assert(0 <= j < self.keys@.len() && self.keys@[j] == k);
                            if j < n {
                                assert(before.keys@[j] == k);
                            } else if j > n {
                                assert(before.keys@[j - 1] == k);
                            }
                        }
                        if before@.contains_key(k) {
                            let j = before.keys@.index_of(k);
                            assert(0 <= j < before.keys@.len() && before.keys@[j] == k);
                            if j < n {
                                assert(self.keys@[j] == k);
                            } else {
                                assert(self.keys@[j + 1] == k);
                            }
                        }
                        if k == id {
                            assert(self.keys@[n as int] == k);
                        }
                    }
                    assert forall|k: u64| self@.contains_key(k) implies #[trigger] self@[k]
                        == before@.insert(id, value)[k] by {
                        let j = self.keys@.index_of(k);
                        assert(0 <= j < self.keys@.len() && self.keys@[j] == k);
                        assert(self@[self.keys@[j]] == self.vals@[j]);
                        if j < n {
                            assert(before@[before.keys@[j]] == before.vals@[j]);
                        } else if j > n {
                            assert(before@[before.keys@[j - 1]] == before.vals@[j - 1]);
                        }
                    }
                }
            }
            None
        }
    }

    /// Removes the entry of `id` and hands back its value.
    pub fn remove(&mut self, id: u64) -> (r: Option<V>)
        requires
            old(self).wf(),
        ensures
            final(self).wf(),
            final(self)@ == old(self)@.remove(id),
            r == (if old(self)@.contains_key(id) {
                Some(old(self)@[id])
            } else {
                None
            }),
    {
        let ghost before = *self;
        match self.position(id) {
            None => {
                proof {
                    assert(self@ =~= before@.remove(id));
                }
                None
            },
            Some(n) => {
                proof {
                    self.lemma_repr();
                }
                self.keys.remove(n);
                let value = self.vals.remove(n);
                proof {
                    assert(self.wf()) by {
                        assert forall|i: int, j: int|
                            0 <= i < j < self.keys@.len() implies self.keys@[i] < self.keys@[j] by {
                            let a = if i < n { i } else { i + 1 };
                            let b = if j < n { j } else { j + 1 };
                            assert(before.keys@[a] < before.keys@[b]);
                        }
                    }
                    self.lemma_repr();
                    assert(self@ =~= before@.remove(id)) by {
                        assert forall|k: u64| self@.contains_key(k) <==> before@.remove(
                            id,
                        ).contains_key(k) by {
                            if self@.contains_key(k) {
                                let j = self.keys@.index_of(k);
                                assert(0 <= j < self.keys@.len() && self.keys@[j] == k);
                                let a = if j < n { j } else { j + 1 };
                                assert(before.keys@[a] == k);
                                assert(before.keys@[n as int] == id);
                            }
                            if before@.contains_key(k) && k != id {
                                let j = before.keys@.index_of(k);
                                assert(0 <= j < before.keys@.len() && before.keys@[j] == k);
                                if j < n {
                                    assert(self.keys@[j] == k);
                                } else {
                                    assert(self.keys@[j - 1] == k);
                                }
                            }
                        }
                        assert forall|k: u64| self@.contains_key(k) implies #[trigger] self@[k]
                            == before@.remove(id)[k] by {
                            let j = self.keys@.index_of(k);
                            assert(0 <= j < self.keys@.len() && self.keys@[j] == k);
                            assert(self@[self.keys@[j]] == self.vals@[j]);
                            let a = if j < n { j } else { j + 1 };
                            assert(before@[before.keys@[a]] == before.vals@[a]);
                        }
                    }
                }
                Some(value)
            },
        }
    }

    /// Keeps the first `n` entries of the ascending order and drops the rest.
    pub fn truncate(&mut self, n: usize)
        requires
            old(self).wf(),
            n <= old(self).ids().len(),
        ensures
            final(self).wf(),
            final(self).ids() == old(self).ids().take(n as int),
            forall|id: u64| #[trigger]
                final(self)@.contains_key(id) ==> old(self)@.contains_key(id) && final(self)@[id]
                    == old(self)@[id],
    {
        proof {
            self.lemma_repr();
        }
        let ghost before = *self;
        self.keys.truncate(n);
        self.vals.truncate(n);
        proof {
            assert(self.keys@ =~= before.keys@.take(n as int));
            assert(self.vals@ =~= before.vals@.take(n as int));
            assert(self.wf());
            self.lemma_repr();
            assert forall|id: u64| #[trigger] self@.contains_key(id) implies before@.contains_key(
                id,
            ) && self@[id] == before@[id] by {
                let j = self.keys@.index_of(id);
                assert(0 <= j < self.keys@.len() && self.keys@[j] == id);
                assert(self@[self.keys@[j]] == self.vals@[j]);
                assert(before@[before.keys@[j]] == before.vals@[j]);
            }
        }
    }

    /// Removes every entry.
    pub fn clear(&mut self)
        requires
            old(self).wf(),
        ensures
            final(self).wf(),
            final(self)@ == Map::<u64, V>::empty(),
    {
        self.keys.clear();
        self.vals.clear();
        proof {
            self.lemma_repr();
            assert(self@ =~= Map::<u64, V>::empty());
        }
    }
}

} // verus!
