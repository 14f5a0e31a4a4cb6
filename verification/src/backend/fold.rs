//! Folding versions into an older one: one version takes over what others
//! wrote, the newest write to each key winning.

use super::{history_view, VsBackend};
use crate::common::VsError;
use crate::idmap::IdMap;
use crate::keymap::{KeyMap, KeySet};
use crate::model::{above, VsState};
use crate::order::{
    first_of, ids_rising, key_among, lemma_first_of_below, lemma_first_of_none,
    lemma_first_of_step, lemma_key_among_all, lemma_key_among_step, lemma_key_not_among,
    lists_ids, lists_keys, members,
};
use crate::validity::{
    lemma_absorb_inv, lemma_detach_inv, lemma_last_write_none, lemma_last_write_step,
};
use vstd::prelude::*;

verus! {

/// Hiding some versions and then others is hiding them all at once.
pub proof fn lemma_detach_twice(s: VsState, a: Set<u64>, b: Set<u64>)
    ensures
        s.detach(a).detach(b) == s.detach(a.union(b)),
{
    let t = s.detach(a).detach(b);
    let u = s.detach(a.union(b));
    assert forall|br: u64| t.br_to_vers.contains_key(br) implies #[trigger] t.br_to_vers[br]
        == u.br_to_vers[br] by {
        assert(t.br_to_vers[br] =~= u.br_to_vers[br]);
    }
    assert(t.br_to_vers =~= u.br_to_vers);
    assert(t =~= u);
}

/// Hiding no version changes nothing.
pub proof fn lemma_detach_nothing(s: VsState)
    ensures
        s.detach(Set::empty()) == s,
{
    let t = s.detach(Set::empty());
    assert forall|br: u64| t.br_to_vers.contains_key(br) implies #[trigger] t.br_to_vers[br]
        == s.br_to_vers[br] by {
        assert(t.br_to_vers[br] =~= s.br_to_vers[br]);
    }
    assert(t.br_to_vers =~= s.br_to_vers);
    assert(t =~= s);
}

/// Writes each value of `writes` to its key at version `target`, and puts
/// the key into `chgset`.
fn store_all(
    lkv: &mut KeyMap<IdMap<Vec<u8>>>,
    chgset: &mut KeySet,
    target: u64,
    writes: &KeyMap<Vec<u8>>,
)
    requires
        old(lkv).wf(),
        forall|k: Seq<u8>| #[trigger] old(lkv)@.contains_key(k) ==> old(lkv)@[k].wf(),
        old(chgset).wf(),
        writes.wf(),
        forall|k: Seq<u8>| #[trigger] writes@.contains_key(k) ==> old(lkv)@.contains_key(k),
    ensures
        final(lkv).wf(),
        forall|k: Seq<u8>| #[trigger] final(lkv)@.contains_key(k) ==> final(lkv)@[k].wf(),
        final(chgset).wf(),
        forall|k: Seq<u8>| final(lkv)@.contains_key(k) <==> old(lkv)@.contains_key(k),
        forall|k: Seq<u8>| #[trigger]
            final(lkv)@.contains_key(k) ==> history_view(final(lkv)@[k]) == (if writes@.contains_key(
                k,
            ) {
                history_view(old(lkv)@[k]).insert(target, writes@[k]@)
            } else {
                history_view(old(lkv)@[k])
            }),
        forall|k: Seq<u8>| #[trigger]
            final(chgset)@.contains_key(k) <==> old(chgset)@.contains_key(k) || writes@.contains_key(
                k,
            ),
{
    let n = writes.len();
    let mut i: usize = 0;
    proof {
        writes.lemma_keys();
    }
    let ghost q = writes.keys();
    while i < n
        invariant
            writes.wf(),
            q == writes.keys(),
            lists_keys(q, writes@.dom()),
            n == q.len(),
            i <= n,
            lkv.wf(),
            forall|k: Seq<u8>| #[trigger] lkv@.contains_key(k) ==> lkv@[k].wf(),
            chgset.wf(),
            forall|k: Seq<u8>| lkv@.contains_key(k) <==> old(lkv)@.contains_key(k),
            forall|k: Seq<u8>| #[trigger] writes@.contains_key(k) ==> old(lkv)@.contains_key(k),
            forall|k: Seq<u8>| #[trigger]
                lkv@.contains_key(k) ==> history_view(lkv@[k]) == (if key_among(q, i as int, k) {
                    history_view(old(lkv)@[k]).insert(target, writes@[k]@)
                } else {
                    history_view(old(lkv)@[k])
                }),
            forall|k: Seq<u8>| #[trigger]
                chgset@.contains_key(k) <==> old(chgset)@.contains_key(k) || key_among(
                    q,
                    i as int,
                    k,
                ),
        decreases n - i,
    {
        let key = writes.key_at(i);
        let value = writes.value_at(i).clone();
        let ghost kk = key@;
        let ghost mid = *lkv;
        let ghost mid_chgset = *chgset;
        proof {
            assert(q.contains(kk));
            assert(writes@.contains_key(kk));
            lemma_key_not_among(q, i as int);
        }
        chgset.insert(key.as_slice(), ());
        let at = lkv.position(key.as_slice()).unwrap();
        let mut hist = lkv.replace_at(at, IdMap::new());
        let ghost old_hist = hist;
        hist.insert(target, value);
        proof {
            assert(history_view(hist) =~= history_view(old_hist).insert(target, writes@[kk]@));
        }
        lkv.replace_at(at, hist);
        proof {
            assert forall|k: Seq<u8>| lkv@.contains_key(k) <==> old(lkv)@.contains_key(k) by {
                assert(lkv@.contains_key(k) <==> mid@.contains_key(k));
            }
            assert forall|k: Seq<u8>| #[trigger] lkv@.contains_key(k) implies history_view(lkv@[k])
                == (if key_among(q, i + 1, k) {
                history_view(old(lkv)@[k]).insert(target, writes@[k]@)
            } else {
                history_view(old(lkv)@[k])
            }) by {
                lemma_key_among_step(q, i as int, k);
                assert(mid@.contains_key(k));
                if k != kk {
                    assert(lkv@[k] == mid@[k]);
                }
            }
            assert forall|k: Seq<u8>| #[trigger]
                chgset@.contains_key(k) <==> old(chgset)@.contains_key(k) || key_among(
                    q,
                    i + 1,
                    k,
                ) by {
                lemma_key_among_step(q, i as int, k);
                assert(chgset@.contains_key(k) <==> mid_chgset@.contains_key(k) || k == kk);
            }
        }
        i += 1;
    }
    proof {
        assert forall|k: Seq<u8>| key_among(q, n as int, k) <==> #[trigger] writes@.contains_key(
            k,
        ) by {
            lemma_key_among_all(q, writes@.dom(), k);
        }
        assert forall|k: Seq<u8>| #[trigger]
            chgset@.contains_key(k) <==> old(chgset)@.contains_key(k) || writes@.contains_key(
                k,
            ) by {
            lemma_key_among_all(q, writes@.dom(), k);
        }
    }
}

impl VsBackend {
    /// For each key that one of the versions `merged` wrote, the value of
    /// the newest such write.
    pub(crate) fn last_writes(&self, merged: &Vec<u64>) -> (c: KeyMap<Vec<u8>>)
        requires
            self.wf(),
            ids_rising(merged@),
            forall|j: int|
                0 <= j < merged@.len() ==> self@.ver_to_chgset.contains_key(#[trigger] merged@[j]),
        ensures
            c.wf(),
            forall|k: Seq<u8>| #[trigger]
                c@.contains_key(k) <==> self@.lkv.contains_key(k) && VsState::last_write(
                    self@.lkv[k],
                    members(merged@),
                ) is Some,
            forall|k: Seq<u8>| #[trigger]
                c@.contains_key(k) ==> c@[k]@ == self@.lkv[k][VsState::last_write(
                    self@.lkv[k],
                    members(merged@),
                )->0],
    {
        let mut c: KeyMap<Vec<u8>> = KeyMap::new();
        let n = merged.len();
        let mut i: usize = 0;
        proof {
            lemma_first_of_none(merged@);
            assert forall|k: Seq<u8>| self@.lkv.contains_key(k) implies VsState::last_write(
                #[trigger] self@.lkv[k],
                first_of(merged@, 0),
            ) is None by {
                lemma_last_write_none(self@.lkv[k]);
            }
        }
        while i < n
            invariant
                self.wf(),
                c.wf(),
                n == merged@.len(),
                i <= n,
                ids_rising(merged@),
                forall|j: int|
                    0 <= j < merged@.len() ==> self@.ver_to_chgset.contains_key(
                        #[trigger] merged@[j],
                    ),
                forall|k: Seq<u8>| #[trigger]
                    c@.contains_key(k) <==> self@.lkv.contains_key(k) && VsState::last_write(
                        self@.lkv[k],
                        first_of(merged@, i as int),
                    ) is Some,
                forall|k: Seq<u8>| #[trigger]
                    c@.contains_key(k) ==> c@[k]@ == self@.lkv[k][VsState::last_write(
                        self@.lkv[k],
                        first_of(merged@, i as int),
                    )->0],
            decreases n - i,
        {
            let v = merged[i];
            proof {
                assert(self@.ver_to_chgset.contains_key(merged@[i as int]));
            }
            let chgset = self.ver_to_chgset.get(v).unwrap();
            let ghost q = chgset.keys();
            let ghost c0 = c;
            let m = chgset.len();
            let mut j: usize = 0;
            proof {
                chgset.lemma_keys();
                assert(chgset@.dom() == self@.ver_to_chgset[v]);
            }
            while j < m
                invariant
                    self.wf(),
                    c.wf(),
                    chgset.wf(),
                    q == chgset.keys(),
                    lists_keys(q, chgset@.dom()),
                    m == q.len(),
                    j <= m,
                    self@.ver_to_chgset.contains_key(v),
                    chgset@.dom() == self@.ver_to_chgset[v],
                    forall|k: Seq<u8>| #[trigger]
                        c@.contains_key(k) <==> key_among(q, j as int, k) || c0@.contains_key(k),
                    forall|k: Seq<u8>| #[trigger]
                        c@.contains_key(k) ==> (key_among(q, j as int, k) ==> self@.lkv.contains_key(
                            k,
                        ) && self@.lkv[k].contains_key(v) && c@[k]@ == self@.lkv[k][v]) && (
                        !key_among(q, j as int, k) ==> c@[k] == c0@[k]),
                decreases m - j,
            {
                let key = chgset.key_at(j);
                let ghost kk = key@;
                let ghost c1 = c;
                proof {
                    assert(q.contains(kk));
                    assert(self@.ver_to_chgset[v].contains(kk));
                    assert(self@.lkv.contains_key(kk) && self@.lkv[kk].contains_key(v));
                }
                let hist = self.lkv.get(key.as_slice()).unwrap();
                let value = hist.get(v).unwrap().clone();
                c.insert(key.as_slice(), value);
                proof {
                    assert forall|k: Seq<u8>| #[trigger]
                        c@.contains_key(k) <==> key_among(q, j + 1, k) || c0@.contains_key(k) by {
                        lemma_key_among_step(q, j as int, k);
                        assert(c@.contains_key(k) <==> c1@.contains_key(k) || k == kk);
                    }
                    assert forall|k: Seq<u8>| #[trigger] c@.contains_key(k) implies (key_among(
                        q,
                        j + 1,
                        k,
                    ) ==> self@.lkv.contains_key(k) && self@.lkv[k].contains_key(v) && c@[k]@
                        == self@.lkv[k][v]) && (!key_among(q, j + 1, k) ==> c@[k] == c0@[k]) by {
                        lemma_key_among_step(q, j as int, k);
                        if k != kk {
                            assert(c1@.contains_key(k));
                            assert(c@[k] == c1@[k]);
                        }
                    }
                }
                j += 1;
            }
            proof {
                lemma_first_of_step(merged@, i as int);
                lemma_first_of_below(merged@, i as int);
                let before = first_of(merged@, i as int);
                let after = first_of(merged@, i + 1);
                assert forall|k: Seq<u8>| #[trigger]
                    c@.contains_key(k) <==> self@.lkv.contains_key(k) && VsState::last_write(
                        self@.lkv[k],
                        after,
                    ) is Some by {
                    lemma_key_among_all(q, chgset@.dom(), k);
                    if self@.lkv.contains_key(k) {
                        lemma_last_write_step(self@.lkv[k], before, v);
                        if self@.lkv[k].contains_key(v) {
                            assert(self@.ver_to_chgset[v].contains(k));
                        }
                    }
                    if key_among(q, m as int, k) {
                        assert(self@.ver_to_chgset[v].contains(k));
                        assert(self@.lkv.contains_key(k) && self@.lkv[k].contains_key(v));
                    }
                }
                assert forall|k: Seq<u8>| #[trigger] c@.contains_key(k) implies c@[k]@
                    == self@.lkv[k][VsState::last_write(self@.lkv[k], after)->0] by {
                    lemma_key_among_all(q, chgset@.dom(), k);
                    lemma_last_write_step(self@.lkv[k], before, v);
                    if self@.lkv[k].contains_key(v) {
                        assert(self@.ver_to_chgset[v].contains(k));
                    } else {
                        assert(!key_among(q, m as int, k));
                        assert(c0@.contains_key(k));
                    }
                }
            }
            i += 1;
        }
        c
    }

    /// Version `target` takes over the `writes`: each value is written to
    /// its key at `target`.
    pub(crate) fn store_writes(&mut self, target: u64, writes: &KeyMap<Vec<u8>>, Ghost(
        vers,
    ): Ghost<Set<u64>>)
        requires
            old(self).wf(),
            old(self)@.ver_to_chgset.contains_key(target),
            writes.wf(),
            forall|k: Seq<u8>| #[trigger]
                writes@.contains_key(k) <==> old(self)@.lkv.contains_key(k) && VsState::last_write(
                    old(self)@.lkv[k],
                    vers,
                ) is Some,
            forall|k: Seq<u8>| #[trigger]
                writes@.contains_key(k) ==> writes@[k]@ == old(self)@.lkv[k][VsState::last_write(
                    old(self)@.lkv[k],
                    vers,
                )->0],
        ensures
            final(self).wf(),
            final(self)@ == old(self)@.absorb(target, vers),
    {
        let ghost before = *self;
        let at = self.ver_to_chgset.position(target).unwrap();
        let mut chgset = self.ver_to_chgset.replace_at(at, KeyMap::new());
        let ghost old_chgset = chgset;
        proof {
            assert forall|k: Seq<u8>| #[trigger]
                writes@.contains_key(k) implies self.lkv@.contains_key(k) by {
                assert(before@.lkv.contains_key(k));
            }
        }
        store_all(&mut self.lkv, &mut chgset, target, writes);
        let ghost new_chgset = chgset;
        self.ver_to_chgset.replace_at(at, chgset);
        proof {
            lemma_absorb_inv(before@, target, vers);
            let want = before@.absorb(target, vers);
            assert(self@.ver_to_chgset[target] =~= want.ver_to_chgset[target]) by {
                assert forall|k: Seq<u8>| self@.ver_to_chgset[target].contains(k)
                    <==> want.ver_to_chgset[target].contains(k) by {
                    assert(self@.ver_to_chgset[target].contains(k) <==> new_chgset@.contains_key(
                        k,
                    ));
                    assert(old_chgset@.contains_key(k) <==> before@.ver_to_chgset[target].contains(
                        k,
                    ));
                }
            }
            assert(self@.ver_to_chgset =~= want.ver_to_chgset);
            assert forall|k: Seq<u8>| self@.lkv.contains_key(k) <==> want.lkv.contains_key(k) by {
                assert(self.lkv@.contains_key(k) <==> before.lkv@.contains_key(k));
            }
            assert forall|k: Seq<u8>| self@.lkv.contains_key(k) implies #[trigger] self@.lkv[k]
                == want.lkv[k] by {
                assert(self.lkv@.contains_key(k));
                assert(before@.lkv.contains_key(k));
            }
            assert(self@.lkv =~= want.lkv);
            assert(self@ =~= want);
        }
    }

    /// Version `target` takes over what the versions `merged` wrote.
    pub(crate) fn absorb(&mut self, target: u64, merged: &Vec<u64>)
        requires
            old(self).wf(),
            old(self)@.ver_to_chgset.contains_key(target),
            ids_rising(merged@),
            forall|j: int|
                0 <= j < merged@.len() ==> old(self)@.ver_to_chgset.contains_key(
                    #[trigger] merged@[j],
                ),
        ensures
            final(self).wf(),
            final(self)@ == old(self)@.absorb(target, members(merged@)),
    {
        let writes = self.last_writes(merged);
        self.store_writes(target, &writes, Ghost(members(merged@)));
    }

    /// Takes the versions `vers` out of every branch.
    pub(crate) fn detach_versions(&mut self, vers: &Vec<u64>)
        requires
            old(self).wf(),
        ensures
            final(self).wf(),
            final(self)@ == old(self)@.detach(members(vers@)),
            forall|b: u64, v: u64|
                final(self)@.br_to_vers.contains_key(b)
                    && #[trigger] final(self)@.br_to_vers[b].contains(v)
                    ==> !members(vers@).contains(v),
    {
        let ghost before = *self;
        let n = vers.len();
        let mut i: usize = 0;
        proof {
            lemma_first_of_none(vers@);
            lemma_detach_nothing(before@);
        }
        while i < n
            invariant
                self.wf(),
                n == vers@.len(),
                i <= n,
                self@ == before@.detach(first_of(vers@, i as int)),
            decreases n - i,
        {
            self.detach_version(vers[i]);
            proof {
                lemma_detach_twice(before@, first_of(vers@, i as int), set![vers@[i as int]]);
                lemma_first_of_step(vers@, i as int);
                assert(first_of(vers@, i as int).union(set![vers@[i as int]]) =~= first_of(
                    vers@,
                    i as int,
                ).insert(vers@[i as int]));
            }
            i += 1;
        }
        proof {
            lemma_detach_inv(before@, members(vers@));
        }
    }

    /// The versions of branch `br` that are newer than `base`, oldest first.
    fn versions_above(&self, base: u64, br: u64) -> (r: Vec<u64>)
        requires
            self.wf(),
            self@.br_to_vers.contains_key(br),
        ensures
            ids_rising(r@),
            members(r@) == above(self@.br_to_vers[br], base),
    {
        let vers = self.br_to_vers.get(br).unwrap();
        let start = vers.count_upto(base);
        let n = vers.len();
        let mut r: Vec<u64> = Vec::new();
        let mut i: usize = start;
        proof {
            vers.lemma_ids();
        }
        while i < n
            invariant
                vers.wf(),
                lists_ids(vers.ids(), vers@.dom()),
                n == vers.ids().len(),
                start <= i <= n,
                r@.len() == i - start,
                forall|j: int| 0 <= j < r@.len() ==> r@[j] == vers.ids()[start + j],
            decreases n - i,
        {
            r.push(vers.id_at(i));
            i += 1;
        }
        proof {
            assert(self@.br_to_vers[br] == vers@.dom());
            assert forall|v: u64| members(r@).contains(v) <==> above(vers@.dom(), base).contains(
                v,
            ) by {
                if members(r@).contains(v) {
                    let j = choose|j: int| 0 <= j < r@.len() && r@[j] == v;
                    assert(vers.ids().contains(vers.ids()[start + j]));
                }
                if above(vers@.dom(), base).contains(v) {
                    assert(vers.ids().contains(v));
                    let t = choose|t: int| 0 <= t < n && vers.ids()[t] == v;
                    assert(t >= start);
                    assert(r@[t - start] == v);
                }
            }
            assert(members(r@) =~= above(vers@.dom(), base));
        }
        r
    }

    /// Folds the versions of branch `br` that are newer than `base` into
    /// `base`: `base` takes over their writes, the newest write to each key
    /// winning, and they are forgotten. What branch `br` reads at its newest
    /// version stays as it was. Another branch that saw one of the folded
    /// versions no longer sees it and so may read older data than before.
    pub fn version_rebase_by_branch(&mut self, base: u64, br: u64) -> (r: Result<(), VsError>)
        requires
            old(self).wf(),
        ensures
            final(self).wf(),
            match old(self)@.version_rebase_by_branch(base, br) {
                Ok(s) => final(self)@ == s && r is Ok,
                Err(e) => final(self)@ == old(self)@ && r == Err::<(), VsError>(e),
            },
    {
        if !self.br_to_vers.contains_key(br) {
            return Err(VsError::BranchNotFound);
        }
        if !self.version_exists_on_branch(base, br) {
            return Err(VsError::VersionOnWrongBranch);
        }
        let ghost before = *self;
        let merged = self.versions_above(base, br);
        proof {
            assert(before@.ver_to_chgset.contains_key(base));
            assert forall|j: int| 0 <= j < merged@.len() implies before@.ver_to_chgset.contains_key(
                #[trigger] merged@[j],
            ) by {
                assert(members(merged@).contains(merged@[j]));
                assert(before@.br_to_vers[br].contains(merged@[j]));
            }
        }
        self.absorb(base, &merged);
        self.detach_versions(&merged);
        proof {
            assert forall|j: int| 0 <= j < merged@.len() implies self@.ver_to_chgset.contains_key(
                #[trigger] merged@[j],
            ) by {
                assert(before@.ver_to_chgset.contains_key(merged@[j]));
            }
            assert forall|b: u64, v: u64|
                self@.br_to_vers.contains_key(b) && #[trigger] self@.br_to_vers[b].contains(
                    v,
                ) implies !merged@.contains(v) by {
                if merged@.contains(v) {
                    let j = choose|j: int| 0 <= j < merged@.len() && merged@[j] == v;
                    assert(members(merged@).contains(v));
                }
            }
        }
        self.purge_versions(&merged, false);
        Ok(())
    }

    /// Folds the versions of the default branch that are newer than `base`
    /// into `base`.
    pub fn version_rebase(&mut self, base: u64) -> (r: Result<(), VsError>)
        requires
            old(self).wf(),
        ensures
            final(self).wf(),
            match old(self)@.version_rebase_by_branch(base, old(self)@.default_branch) {
                Ok(s) => final(self)@ == s && r is Ok,
                Err(e) => final(self)@ == old(self)@ && r == Err::<(), VsError>(e),
            },
    {
        let br = self.default_branch;
        self.version_rebase_by_branch(base, br)
    }
}

} // verus!
