//! Shortening the history that all branches in use have in common.

use super::versions::erase_entries;
use super::VsBackend;
use crate::common::{VsError, RESERVED_VERSION_NUM_DEFAULT};
use crate::keymap::{KeyMap, KeySet};
use crate::model::VsState;
use crate::order::{
    ascending, first_of, ids_rising, key_among, lemma_key_among_all, lemma_key_among_step,
    lists_ids, lists_keys, members,
};
use vstd::prelude::*;

verus! {

/// The versions of every branch of `s` can be listed in ascending order.
pub open spec fn branches_listed(s: VsState) -> bool {
    forall|b: u64| #[trigger]
        s.br_to_vers.contains_key(b) ==> lists_ids(ascending(s.br_to_vers[b]), s.br_to_vers[b])
}

/// The branches in use all start with the first `n` versions of branch
/// `base`, and `n` is as great as can be: `base` ends there, or some branch
/// in use ends there or goes on differently.
pub open spec fn common_start(s: VsState, base: u64, n: int) -> bool {
    &&& s.branch_in_use(base)
    &&& 0 <= n <= ascending(s.br_to_vers[base]).len()
    &&& forall|b: u64| #[trigger]
        s.branch_in_use(b) ==> n <= ascending(s.br_to_vers[b]).len() && forall|i: int|
            0 <= i < n ==> ascending(s.br_to_vers[b])[i] == ascending(s.br_to_vers[base])[i]
    &&& n == ascending(s.br_to_vers[base]).len() || exists|c: u64|
        s.branch_in_use(c) && (ascending(s.br_to_vers[c]).len() == n || ascending(
            s.br_to_vers[c],
        )[n] != ascending(s.br_to_vers[base])[n])
}

/// The position of a member in an ascending enumeration.
proof fn lemma_position(q: Seq<u64>, s: Set<u64>, v: u64) -> (i: int)
    requires
        lists_ids(q, s),
        s.contains(v),
    ensures
        0 <= i < q.len(),
        q[i] == v,
{
    assert(q.contains(v));
    choose|i: int| 0 <= i < q.len() && q[i] == v
}

/// The shared versions are the common start of the branches in use.
pub proof fn lemma_shared_is_common_start(s: VsState, base: u64, n: int)
    requires
        branches_listed(s),
        common_start(s, base, n),
    ensures
        forall|v: u64| s.shared(v) <==> first_of(ascending(s.br_to_vers[base]), n).contains(v),
{
    let p = ascending(s.br_to_vers[base]);
    assert forall|v: u64| first_of(p, n).contains(v) implies s.shared(v) by {
        let i = choose|i: int| 0 <= i < n && p[i] == v;
        assert forall|b: u64| s.branch_in_use(b) implies #[trigger] s.br_to_vers[b].contains(
            v,
        ) by {
            let q = ascending(s.br_to_vers[b]);
            assert(q[i] == v);
            assert(q.contains(q[i]));
        }
        assert forall|b1: u64, b2: u64, u: u64|
            s.branch_in_use(b1) && s.branch_in_use(b2) && u <= v && #[trigger] s.br_to_vers[b1].contains(
            u) implies #[trigger] s.br_to_vers[b2].contains(u) by {
            let q1 = ascending(s.br_to_vers[b1]);
            let q2 = ascending(s.br_to_vers[b2]);
            let j = lemma_position(q1, s.br_to_vers[b1], u);
            assert(q1[i] == v);
            if j > i {
                assert(q1[i] < q1[j]);
            }
            assert(q2[j] == p[j]);
            assert(q1[j] == p[j]);
            assert(q2.contains(q2[j]));
        }
    }
    assert forall|v: u64| s.shared(v) implies first_of(p, n).contains(v) by {
        assert(s.br_to_vers[base].contains(v));
        let i = lemma_position(p, s.br_to_vers[base], v);
        if i >= n {
            let c = choose|c: u64|
                s.branch_in_use(c) && (ascending(s.br_to_vers[c]).len() == n || ascending(
                    s.br_to_vers[c],
                )[n] != p[n]);
            let q = ascending(s.br_to_vers[c]);
            let u = p[n];
            assert(p.contains(u));
            assert(s.br_to_vers[base].contains(u));
            if n < i {
                assert(p[n] < p[i]);
            }
            assert(u <= v);
            assert(s.br_to_vers[c].contains(u));
            let j = lemma_position(q, s.br_to_vers[c], u);
            if j < n {
                assert(q[j] == p[j]);
                assert(p[j] < p[n]);
            }
            assert(q.len() > n);
            let w = q[n];
            assert(q.contains(w));
            assert(s.br_to_vers[c].contains(w));
            if n < j {
                assert(q[n] < q[j]);
            }
            assert(w <= v);
            assert(s.br_to_vers[base].contains(w));
            let t = lemma_position(p, s.br_to_vers[base], w);
            if t < n {
                assert(q[t] == p[t]);
                assert(q[t] < q[n]);
            }
            if t > n {
                assert(p[n] < p[t]);
            }
            assert(false);
        }
        assert(0 <= i < n && p[i] == v);
    }
}

/// A rising list of members of `p` that are all greater than `p[j]` starts
/// no earlier than at position `j + 1` of `p` and moves on by at least one
/// position with each member.
proof fn lemma_rising_within(p: Seq<u64>, q: Seq<u64>, j: int, i: int) -> (t: int)
    requires
        ids_rising(p),
        ids_rising(q),
        0 <= j < p.len(),
        0 <= i < q.len(),
        forall|a: int| 0 <= a < q.len() ==> p.contains(#[trigger] q[a]) && q[a] > p[j],
    ensures
        j + 1 + i <= t < p.len(),
        p[t] == q[i],
    decreases i,
{
    assert(p.contains(q[i]));
    let t = choose|t: int| 0 <= t < p.len() && p[t] == q[i];
    if i == 0 {
        if t <= j {
            if t < j {
                assert(p[t] < p[j]);
            }
        }
    } else {
        let t0 = lemma_rising_within(p, q, j, i - 1);
        assert(q[i - 1] < q[i]);
        if t <= t0 {
            if t < t0 {
                assert(p[t] < p[t0]);
            }
        }
    }
    t
}

/// Where `p` lists the shared versions, oldest first: the first of them is
/// the one that takes over, and the ones to fold away are those from the
/// second up to the one that has exactly `reserve` others after it.
pub proof fn lemma_prunable(s: VsState, p: Seq<u64>, reserve: nat)
    requires
        ids_rising(p),
        p.len() > 0,
        forall|v: u64| s.shared(v) <==> p.contains(v),
    ensures
        s.is_rewrite_version(p[0]),
        forall|r: u64| s.is_rewrite_version(r) ==> r == p[0],
        forall|v: u64|
            s.prunable(reserve).contains(v) <==> exists|j: int|
                1 <= j < p.len() - reserve && p[j] == v,
{
    assert(p.contains(p[0]));
    assert forall|u: u64| s.shared(u) implies p[0] <= u by {
        assert(p.contains(u));
        let t = choose|t: int| 0 <= t < p.len() && p[t] == u;
        if t > 0 {
            assert(p[0] < p[t]);
        }
    }
    assert forall|v: u64| (exists|j: int| 1 <= j < p.len() - reserve && p[j] == v) implies s.prunable(
        reserve,
    ).contains(v) by {
        let j = choose|j: int| 1 <= j < p.len() - reserve && p[j] == v;
        assert(p.contains(p[j]));
        assert(p[0] < p[j]);
        let q = p.subrange(j + 1, j + 1 + reserve);
        assert(ids_rising(q));
        assert forall|i: int| 0 <= i < q.len() implies s.shared(#[trigger] q[i]) && q[i] > v by {
            assert(q[i] == p[j + 1 + i]);
            assert(p.contains(p[j + 1 + i]));
            assert(p[j] < p[j + 1 + i]);
        }
        assert(q.len() == reserve && s.newer_shared(v, q));
    }
    assert forall|v: u64| s.prunable(reserve).contains(v) implies exists|j: int|
        1 <= j < p.len() - reserve && p[j] == v by {
        assert(p.contains(v));
        let j = choose|j: int| 0 <= j < p.len() && p[j] == v;
        let q = choose|q: Seq<u64>| q.len() == reserve && s.newer_shared(v, q);
        if reserve > 0 {
            assert forall|a: int| 0 <= a < q.len() implies p.contains(#[trigger] q[a]) && q[a]
                > p[j] by {
                assert(s.shared(q[a]));
            }
            let t = lemma_rising_within(p, q, j, reserve - 1);
        }
        assert(1 <= j < p.len() - reserve && p[j] == v);
    }
}

/// Dropping the deletions that a version took over keeps the state valid.
pub proof fn lemma_collapse_inv(s: VsState, target: u64, vers: Set<u64>)
    requires
        s.inv(),
        s.ver_to_chgset.contains_key(target),
    ensures
        s.collapse(target, vers).inv(),
{
    let t = s.collapse(target, vers);
    assert(t.visible_versions_recorded()) by {
        assert forall|b: u64, v: u64|
            t.br_to_vers.contains_key(b) && #[trigger] t.br_to_vers[b].contains(
                v,
            ) implies t.ver_to_chgset.contains_key(v) by {
            assert(s.br_to_vers[b].contains(v));
        }
    }
    assert(t.entries_recorded()) by {
        assert forall|k: Seq<u8>, v: u64|
            t.lkv.contains_key(k) && #[trigger] t.lkv[k].contains_key(v) implies t.ver_to_chgset.contains_key(
            v,
        ) && t.ver_to_chgset[v].contains(k) by {
            assert(s.lkv[k].contains_key(v));
        }
    }
    assert(t.changes_stored()) by {
        assert forall|v: u64, k: Seq<u8>|
            t.ver_to_chgset.contains_key(v) && #[trigger] t.ver_to_chgset[v].contains(
                k,
            ) implies t.lkv.contains_key(k) && t.lkv[k].contains_key(v) by {
            assert(s.ver_to_chgset[v].contains(k));
        }
    }
}

impl VsBackend {
    /// The versions of every branch can be listed in ascending order.
    proof fn lemma_branches_listed(&self)
        requires
            self.wf(),
        ensures
            branches_listed(self@),
            forall|b: u64| #[trigger]
                self@.br_to_vers.contains_key(b) ==> self.br_to_vers@.contains_key(b)
                    && self.br_to_vers@[b].wf() && self.br_to_vers@[b].ids() == ascending(
                    self@.br_to_vers[b],
                ),
    {
        assert forall|b: u64| #[trigger] self@.br_to_vers.contains_key(b) implies lists_ids(
            ascending(self@.br_to_vers[b]),
            self@.br_to_vers[b],
        ) && self.br_to_vers@.contains_key(b) && self.br_to_vers@[b].wf()
            && self.br_to_vers@[b].ids() == ascending(self@.br_to_vers[b]) by {
            self.br_to_vers@[b].lemma_ids();
        }
    }

    /// The versions that all branches in use share, oldest first; nothing
    /// where no branch is in use.
    fn shared_versions(&self) -> (r: Option<Vec<u64>>)
        requires
            self.wf(),
        ensures
            match r {
                Some(p) => ids_rising(p@) && (exists|b: u64| self@.branch_in_use(b)) && forall|
                    v: u64,
                | self@.shared(v) <==> p@.contains(v),
                None => !exists|b: u64| self@.branch_in_use(b),
            },
    {
        let nb = self.br_to_vers.len();
        proof {
            self.br_to_vers.lemma_ids();
            self.lemma_branches_listed();
        }
        let ghost brs = self.br_to_vers.ids();
        // the first branch in use
        let mut first: usize = 0;
        while first < nb && self.br_to_vers.value_at(first).len() == 0
            invariant
                self.wf(),
                brs == self.br_to_vers.ids(),
                lists_ids(brs, self.br_to_vers@.dom()),
                nb == brs.len(),
                first <= nb,
                forall|b: u64| #[trigger]
                    self@.br_to_vers.contains_key(b) ==> self.br_to_vers@.contains_key(b)
                        && self.br_to_vers@[b].wf() && self.br_to_vers@[b].ids() == ascending(
                        self@.br_to_vers[b],
                    ),
                branches_listed(self@),
                forall|j: int| 0 <= j < first ==> !self@.branch_in_use(#[trigger] brs[j]),
            decreases nb - first,
        {
            proof {
                let b = brs[first as int];
                assert(brs.contains(b));
                assert(self@.br_to_vers.contains_key(b));
                if self@.branch_in_use(b) {
                    let v = choose|v: u64| self@.br_to_vers[b].contains(v);
                    assert(ascending(self@.br_to_vers[b]).contains(v));
                }
            }
            first += 1;
        }
        if first == nb {
            proof {
                assert forall|b: u64| !self@.branch_in_use(b) by {
                    if self@.branch_in_use(b) {
                        assert(brs.contains(b));
                        let j = choose|j: int| 0 <= j < nb && brs[j] == b;
                        assert(!self@.branch_in_use(brs[j]));
                    }
                }
            }
            return None;
        }
        let base = self.br_to_vers.value_at(first);
        let ghost base_id = brs[first as int];
        let ghost p = ascending(self@.br_to_vers[base_id]);
        proof {
            assert(brs.contains(base_id));
            assert(self@.br_to_vers.contains_key(base_id));
            assert(base.ids() == p);
            assert(p.contains(p[0]));
            assert(self@.br_to_vers[base_id].contains(p[0]));
            assert(self@.branch_in_use(base_id));
        }
        let mut n: usize = base.len();
        let mut b: usize = first + 1;
        let ghost mut witness: u64 = base_id;
        while b < nb
            invariant
                self.wf(),
                brs == self.br_to_vers.ids(),
                lists_ids(brs, self.br_to_vers@.dom()),
                nb == brs.len(),
                first < b <= nb,
                base_id == brs[first as int],
                self@.branch_in_use(base_id),
                base == self.br_to_vers@[base_id],
                base.wf(),
                p == ascending(self@.br_to_vers[base_id]),
                p == base.ids(),
                forall|c: u64| #[trigger]
                    self@.br_to_vers.contains_key(c) ==> self.br_to_vers@.contains_key(c)
                        && self.br_to_vers@[c].wf() && self.br_to_vers@[c].ids() == ascending(
                        self@.br_to_vers[c],
                    ),
                branches_listed(self@),
                forall|j: int| 0 <= j < first ==> !self@.branch_in_use(#[trigger] brs[j]),
                n <= p.len(),
                forall|j: int|
                    0 <= j < b && self@.branch_in_use(#[trigger] brs[j]) ==> n <= ascending(
                        self@.br_to_vers[brs[j]],
                    ).len() && forall|i: int|
                        0 <= i < n ==> ascending(self@.br_to_vers[brs[j]])[i] == p[i],
                n == p.len() || (self@.branch_in_use(witness) && (ascending(
                    self@.br_to_vers[witness],
                ).len() == n || ascending(self@.br_to_vers[witness])[n as int] != p[n as int])),
            decreases nb - b,
        {
            let vers = self.br_to_vers.value_at(b);
            let ghost c = brs[b as int];
            let ghost q = ascending(self@.br_to_vers[c]);
            proof {
                assert(brs.contains(c));
                assert(self@.br_to_vers.contains_key(c));
                assert(vers.ids() == q);
                if vers.ids().len() > 0 {
                    assert(q.contains(q[0]));
                    assert(self@.br_to_vers[c].contains(q[0]));
                } else if self@.branch_in_use(c) {
                    let v = choose|v: u64| self@.br_to_vers[c].contains(v);
                    assert(q.contains(v));
                }
            }
            let m = vers.len();
            if m > 0 {
                let ghost n0 = n;
                let bound = if m < n {
                    m
                } else {
                    n
                };
                let mut i: usize = 0;
                while i < bound && vers.id_at(i) == base.id_at(i)
                    invariant
                        vers.wf(),
                        base.wf(),
                        q == vers.ids(),
                        p == base.ids(),
                        i <= bound,
                        bound <= q.len(),
                        bound <= p.len(),
                        forall|t: int| 0 <= t < i ==> q[t] == p[t],
                    decreases bound - i,
                {
                    i += 1;
                }
                proof {
                    if i < n0 {
                        witness = c;
                    }
                }
                n = i;
                proof {
                    assert forall|j: int|
                        0 <= j < b + 1 && self@.branch_in_use(#[trigger] brs[j]) implies n
                        <= ascending(self@.br_to_vers[brs[j]]).len() && forall|t: int|
                        0 <= t < n ==> ascending(self@.br_to_vers[brs[j]])[t] == p[t] by {
                        if j == b {
                        } else {
                            assert(n0 <= ascending(self@.br_to_vers[brs[j]]).len());
                        }
                    }
                }
            } else {
                proof {
                    assert(!self@.branch_in_use(c));
                }
            }
            b += 1;
        }
        let mut r: Vec<u64> = Vec::new();
        let mut i: usize = 0;
        while i < n
            invariant
                base.wf(),
                p == base.ids(),
                i <= n <= p.len(),
                r@.len() == i,
                forall|t: int| 0 <= t < i ==> r@[t] == p[t],
            decreases n - i,
        {
            r.push(base.id_at(i));
            i += 1;
        }
        proof {
            assert(common_start(self@, base_id, n as int)) by {
                assert forall|c: u64| #[trigger] self@.branch_in_use(c) implies n <= ascending(
                    self@.br_to_vers[c],
                ).len() && forall|t: int|
                    0 <= t < n ==> ascending(self@.br_to_vers[c])[t] == p[t] by {
                    assert(brs.contains(c));
                    let j = choose|j: int| 0 <= j < nb && brs[j] == c;
                    assert(self@.branch_in_use(brs[j]));
                    if j < first {
                        assert(!self@.branch_in_use(brs[j]));
                    }
                }
            }
            lemma_shared_is_common_start(self@, base_id, n as int);
            assert(ids_rising(r@)) by {
                assert forall|a: int, c: int| 0 <= a < c < r@.len() implies r@[a] < r@[c] by {
                    assert(p[a] < p[c]);
                }
            }
            assert forall|v: u64| self@.shared(v) <==> r@.contains(v) by {
                if first_of(p, n as int).contains(v) {
                    let t = choose|t: int| 0 <= t < n && p[t] == v;
                    assert(r@[t] == v);
                }
                if r@.contains(v) {
                    let t = choose|t: int| 0 <= t < r@.len() && r@[t] == v;
                    assert(0 <= t < n && p[t] == v);
                }
            }
        }
        Some(r)
    }

    /// Drops the deletions among the `writes` that version `target` took
    /// over from the versions `vers`: the entry goes, and the key leaves the
    /// change set of `target`.
    fn collapse(&mut self, target: u64, writes: &KeyMap<Vec<u8>>, Ghost(vers): Ghost<Set<u64>>)
        requires
            old(self).wf(),
            old(self)@.ver_to_chgset.contains_key(target),
            writes.wf(),
            forall|k: Seq<u8>| #[trigger]
                writes@.contains_key(k) <==> old(self)@.lkv.contains_key(k) && VsState::last_write(
                    old(self)@.lkv[k],
                    vers,
                ) is Some,
            forall|k: Seq<u8>| #[trigger]
                writes@.contains_key(k) ==> old(self)@.lkv[k].contains_key(target) && old(
                    self,
                )@.lkv[k][target] == writes@[k]@,
        ensures
            final(self).wf(),
            final(self)@ == old(self)@.collapse(target, vers),
    {
        let ghost before = *self;
        let mut dead: KeySet = KeyMap::new();
        let n = writes.len();
        let mut i: usize = 0;
        proof {
            writes.lemma_keys();
        }
        let ghost q = writes.keys();
        while i < n
            invariant
                writes.wf(),
                q == writes.keys(),
                lists_keys(q, writes@.dom()),
                n == q.len(),
                i <= n,
                dead.wf(),
                forall|k: Seq<u8>| #[trigger]
                    dead@.contains_key(k) <==> key_among(q, i as int, k) && writes@[k]@.len() == 0,
            decreases n - i,
        {
            let key = writes.key_at(i);
            let ghost dead0 = dead;
            if writes.value_at(i).len() == 0 {
                dead.insert(key.as_slice(), ());
            }
            proof {
                assert forall|k: Seq<u8>| #[trigger]
                    dead@.contains_key(k) <==> key_among(q, i + 1, k) && writes@[k]@.len()
                        == 0 by {
                    lemma_key_among_step(q, i as int, k);
                    assert(dead0@.contains_key(k) <==> key_among(q, i as int, k) && writes@[k]@.len()
                        == 0);
                }
            }
            i += 1;
        }
        proof {
            assert forall|k: Seq<u8>| #[trigger]
                dead@.contains_key(k) implies self.lkv@.contains_key(k) && self.lkv@[k]@.contains_key(
                target,
            ) by {
                lemma_key_among_all(q, writes@.dom(), k);
                assert(writes@.contains_key(k));
                assert(before@.lkv.contains_key(k));
                assert(before@.lkv[k].contains_key(target));
            }
        }
        erase_entries(&mut self.lkv, &dead, target, false);
        let at = self.ver_to_chgset.position(target).unwrap();
        let mut chgset = self.ver_to_chgset.replace_at(at, KeyMap::new());
        let m = dead.len();
        let mut j: usize = 0;
        proof {
            dead.lemma_keys();
        }
        let ghost dq = dead.keys();
        let ghost chgset0 = chgset;
        while j < m
            invariant
                dead.wf(),
                dq == dead.keys(),
                lists_keys(dq, dead@.dom()),
                m == dq.len(),
                j <= m,
                chgset.wf(),
                forall|k: Seq<u8>| #[trigger]
                    chgset@.contains_key(k) <==> chgset0@.contains_key(k) && !key_among(
                        dq,
                        j as int,
                        k,
                    ),
            decreases m - j,
        {
            let key = dead.key_at(j);
            let ghost mid = chgset;
            chgset.remove(key.as_slice());
            proof {
                assert forall|k: Seq<u8>| #[trigger]
                    chgset@.contains_key(k) <==> chgset0@.contains_key(k) && !key_among(
                        dq,
                        j + 1,
                        k,
                    ) by {
                    lemma_key_among_step(dq, j as int, k);
                    assert(chgset@.contains_key(k) <==> mid@.contains_key(k) && k != key@);
                }
            }
            j += 1;
        }
        let ghost new_chgset = chgset;
        self.ver_to_chgset.replace_at(at, chgset);
        proof {
            lemma_collapse_inv(before@, target, vers);
            let want = before@.collapse(target, vers);
            assert forall|k: Seq<u8>|
                dead@.contains_key(k) <==> (before@.lkv.contains_key(k) && VsState::last_write(
                    before@.lkv[k],
                    vers,
                ) is Some && before@.lkv[k].contains_key(target) && before@.lkv[k][target].len()
                    == 0) by {
                lemma_key_among_all(q, writes@.dom(), k);
                if writes@.contains_key(k) {
                    assert(before@.lkv[k][target] == writes@[k]@);
                }
            }
            assert(self@.ver_to_chgset[target] =~= want.ver_to_chgset[target]) by {
                assert forall|k: Seq<u8>| self@.ver_to_chgset[target].contains(k)
                    <==> want.ver_to_chgset[target].contains(k) by {
                    lemma_key_among_all(dq, dead@.dom(), k);
                    assert(self@.ver_to_chgset[target].contains(k) <==> new_chgset@.contains_key(
                        k,
                    ));
                    assert(chgset0@.contains_key(k) <==> before@.ver_to_chgset[target].contains(k));
                }
            }
            assert(self@.ver_to_chgset =~= want.ver_to_chgset);
            assert forall|k: Seq<u8>| self@.lkv.contains_key(k) <==> want.lkv.contains_key(k) by {
                assert(self.lkv@.contains_key(k) <==> before.lkv@.contains_key(k));
            }
            assert forall|k: Seq<u8>| self@.lkv.contains_key(k) implies #[trigger] self@.lkv[k]
                == want.lkv[k] by {
                assert(self.lkv@.contains_key(k));
                assert(before@.lkv.contains_key(k));
            }
            assert(self@.lkv =~= want.lkv);
            assert(self@ =~= want);
        }
    }

    /// Shortens the history that all branches in use have in common. Of the
    /// versions that they share from their start, the oldest and the newest
    /// `reserved_ver_num` stay (without a number:
    /// `RESERVED_VERSION_NUM_DEFAULT`); the ones between are folded into the
    /// oldest, the newest write to each key winning, and are forgotten with
    /// every other version that no branch sees. What a branch reads at its
    /// newest version stays as it was.
    pub fn prune(&mut self, reserved_ver_num: Option<usize>) -> (r: Result<(), VsError>)
        requires
            old(self).wf(),
        ensures
            final(self).wf(),
            match old(self)@.prune(reserved_ver_num) {
                Ok(s) => final(self)@ == s && r is Ok,
                Err(e) => final(self)@ == old(self)@ && r == Err::<(), VsError>(e),
            },
    {
        let reserve: usize = match reserved_ver_num {
            Some(n) => {
                if n == 0 {
                    return Err(VsError::InvalidReserveCount);
                }
                n
            },
            None => RESERVED_VERSION_NUM_DEFAULT,
        };
        let ghost before = *self;
        let shared = match self.shared_versions() {
            Some(shared) => shared,
            None => {
                return Ok(());
            },
        };
        let l = shared.len();
        if l == 0 || l - 1 <= reserve {
            proof {
                if l > 0 {
                    lemma_prunable(before@, shared@, reserve as nat);
                }
                assert forall|v: u64| !before@.prunable(reserve as nat).contains(v) by {
                    if before@.prunable(reserve as nat).contains(v) {
                        assert(before@.shared(v));
                        assert(shared@.contains(v));
                    }
                }
            }
            return Ok(());
        }
        let rewrite = shared[0];
        let mut folded: Vec<u64> = Vec::new();
        let mut i: usize = 1;
        while i < l - reserve
            invariant
                l == shared@.len(),
                reserve < l,
                1 <= i <= l - reserve,
                folded@.len() == i - 1,
                forall|t: int| 0 <= t < folded@.len() ==> folded@[t] == shared@[t + 1],
            decreases l - reserve - i,
        {
            folded.push(shared[i]);
            i += 1;
        }
        let ghost vers = members(folded@);
        proof {
            lemma_prunable(before@, shared@, reserve as nat);
            assert(vers =~= before@.prunable(reserve as nat)) by {
                assert forall|v: u64| vers.contains(v) <==> before@.prunable(
                    reserve as nat,
                ).contains(v) by {
                    if vers.contains(v) {
                        let t = choose|t: int| 0 <= t < folded@.len() && folded@[t] == v;
                        assert(1 <= t + 1 < l - reserve && shared@[t + 1] == v);
                    }
                    if before@.prunable(reserve as nat).contains(v) {
                        let t = choose|t: int| 1 <= t < l - reserve && shared@[t] == v;
                        assert(folded@[t - 1] == v);
                    }
                }
            }
            assert(vers.contains(folded@[0])) by {
                assert(0 <= 0 < folded@.len() && folded@[0] == folded@[0]);
            }
            assert(ids_rising(folded@)) by {
                assert forall|a: int, c: int| 0 <= a < c < folded@.len() implies folded@[a]
                    < folded@[c] by {
                    assert(shared@[a + 1] < shared@[c + 1]);
                }
            }
            // shared versions are seen by a branch, hence recorded
            let b = choose|b: u64| before@.branch_in_use(b);
            assert(shared@.contains(shared@[0]));
            assert(before@.shared(rewrite));
            assert(before@.br_to_vers[b].contains(rewrite));
            assert forall|t: int| 0 <= t < folded@.len() implies before@.ver_to_chgset.contains_key(
                #[trigger] folded@[t],
            ) by {
                assert(shared@.contains(shared@[t + 1]));
                assert(before@.shared(folded@[t]));
                assert(before@.br_to_vers[b].contains(folded@[t]));
            }
            assert(!vers.contains(rewrite)) by {
                if vers.contains(rewrite) {
                    let t = choose|t: int| 0 <= t < folded@.len() && folded@[t] == rewrite;
                    assert(shared@[0] < shared@[t + 1]);
                }
            }
            assert(before@.rewrite_version() == rewrite);
        }
        let writes = self.last_writes(&folded);
        self.store_writes(rewrite, &writes, Ghost(vers));
        self.detach_versions(&folded);
        proof {
            let s1 = before@.absorb(rewrite, vers);
            assert(self@ == s1.detach(vers));
            assert forall|k: Seq<u8>| #[trigger]
                writes@.contains_key(k) <==> self@.lkv.contains_key(k) && VsState::last_write(
                    self@.lkv[k],
                    vers,
                ) is Some by {
                if before@.lkv.contains_key(k) {
                    assert(self@.lkv[k].dom().intersect(vers) =~= before@.lkv[k].dom().intersect(
                        vers,
                    ));
                }
            }
            assert forall|k: Seq<u8>| #[trigger]
                writes@.contains_key(k) implies self@.lkv[k].contains_key(rewrite)
                && self@.lkv[k][rewrite] == writes@[k]@ by {
                assert(before@.lkv.contains_key(k));
            }
        }
        self.collapse(rewrite, &writes, Ghost(vers));
        let cleaned = self.version_clean_up_globally();
        proof {
            let keep = reserve as nat;
            assert(before@.prunable(keep) == vers);
            assert(before@.prunable(keep).contains(folded@[0]));
            assert(self@ == before@.fold_shared(rewrite, vers));
            assert(exists|b: u64| before@.branch_in_use(b));
            assert(exists|v: u64| before@.prunable(keep).contains(v));
            assert(reserved_ver_num != Some(0usize));
            assert(before@.rewrite_version() == rewrite);
            assert(VsState::reserve_count(reserved_ver_num) == keep);
            assert(before@.has_prunable(keep));
            assert(before@.prune(reserved_ver_num) == Ok::<VsState, VsError>(
                before@.fold_shared(rewrite, vers),
            ));
        }
        Ok(())
    }
}

} // verus!
