//! Operations on versions.

use super::{history_view, VsBackend};
use crate::common::{VersionNameOwned, VsError};
use crate::idmap::{IdMap, IdSet};
use crate::keymap::{KeyMap, KeySet};
use crate::model::VsState;
use crate::order::{first_of, ids_rising, lists_ids, lists_keys, members};
use crate::validity::{lemma_detach_inv, lemma_strip_inv, lemma_strip_nothing, lemma_strip_twice};
use vstd::prelude::*;

verus! {

/// The names that a list of owned version names holds.
pub open spec fn version_names_view(names: Seq<VersionNameOwned>) -> Seq<Seq<u8>> {
    Seq::new(names.len(), |i: int| names[i].0@)
}

/// Takes the entry at version `ver` out of the history of each key of
/// `keys`. With `drop_empty`, a key whose history is left without an entry
/// leaves the map.
pub(crate) fn erase_entries(
    lkv: &mut KeyMap<IdMap<Vec<u8>>>,
    keys: &KeySet,
    ver: u64,
    drop_empty: bool,
)
    requires
        old(lkv).wf(),
        forall|k: Seq<u8>| #[trigger] old(lkv)@.contains_key(k) ==> old(lkv)@[k].wf(),
        keys.wf(),
        forall|k: Seq<u8>| #[trigger]
            keys@.contains_key(k) ==> old(lkv)@.contains_key(k) && old(lkv)@[k]@.contains_key(ver),
    ensures
        final(lkv).wf(),
        forall|k: Seq<u8>| #[trigger] final(lkv)@.contains_key(k) ==> final(lkv)@[k].wf(),
        forall|k: Seq<u8>| #[trigger]
            final(lkv)@.contains_key(k) <==> old(lkv)@.contains_key(k) && !(drop_empty
                && keys@.contains_key(k) && forall|v: u64|
                old(lkv)@[k]@.contains_key(v) ==> v == ver),
        forall|k: Seq<u8>| #[trigger]
            final(lkv)@.contains_key(k) ==> history_view(final(lkv)@[k]) == (if keys@.contains_key(
                k,
            ) {
                history_view(old(lkv)@[k]).remove(ver)
            } else {
                history_view(old(lkv)@[k])
            }),
{
    let n = keys.len();
    let mut j: usize = 0;
    proof {
        keys.lemma_keys();
    }
    while j < n
        invariant
            keys.wf(),
            n == keys.keys().len(),
            j <= n,
            lists_keys(keys.keys(), keys@.dom()),
            lkv.wf(),
            forall|k: Seq<u8>| #[trigger] lkv@.contains_key(k) ==> lkv@[k].wf(),
            forall|k: Seq<u8>| #[trigger]
                keys@.contains_key(k) ==> old(lkv)@.contains_key(k) && old(lkv)@[k]@.contains_key(
                    ver,
                ),
            forall|k: Seq<u8>| #[trigger]
                lkv@.contains_key(k) <==> old(lkv)@.contains_key(k) && !(drop_empty && (exists|
                    i: int,
                | 0 <= i < j && keys.keys()[i] == k) && forall|v: u64|
                    old(lkv)@[k]@.contains_key(v) ==> v == ver),
            forall|k: Seq<u8>| #[trigger]
                lkv@.contains_key(k) ==> history_view(lkv@[k]) == (if exists|i: int|
                    0 <= i < j && keys.keys()[i] == k {
                    history_view(old(lkv)@[k]).remove(ver)
                } else {
                    history_view(old(lkv)@[k])
                }) && ((exists|i: int| 0 <= i < j && keys.keys()[i] == k) || lkv@[k] == old(
                    lkv,
                )@[k]),
        decreases n - j,
    {
        let key = keys.key_at(j);
        let ghost kk = key@;
        let ghost mid = *lkv;
        proof {
            assert(keys.keys().contains(kk));
            assert(keys@.contains_key(kk));
            assert(old(lkv)@.contains_key(kk));
            // the key was not handled before
            if exists|i: int| 0 <= i < j && keys.keys()[i] == kk {
                let i = choose|i: int| 0 <= i < j && keys.keys()[i] == kk;
                crate::order::lemma_lex_asymmetric(keys.keys()[i], keys.keys()[j as int]);
            }
            assert(mid@.contains_key(kk));
            assert(mid@[kk] == old(lkv)@[kk]);
        }
        let at = lkv.position(key.as_slice()).unwrap();
        let mut hist = lkv.replace_at(at, IdMap::new());
        let ghost old_hist = hist;
        hist.remove(ver);
        assert(history_view(hist) =~= history_view(old_hist).remove(ver));
        if drop_empty && hist.is_empty() {
            lkv.remove(key.as_slice());
            proof {
                assert forall|v: u64| old_hist@.contains_key(v) implies v == ver by {
                    if v != ver {
                        assert(hist@.contains_key(v));
                    }
                }
            }
        } else {
            proof {
                if drop_empty {
                    assert(hist@ != Map::<u64, Vec<u8>>::empty());
                    assert(exists|v: u64| hist@.contains_key(v)) by {
                        if forall|v: u64| !hist@.contains_key(v) {
                            assert(hist@ =~= Map::<u64, Vec<u8>>::empty());
                        }
                    }
                    let v = choose|v: u64| hist@.contains_key(v);
                    assert(old_hist@.contains_key(v) && v != ver);
                }
            }
            lkv.replace_at(at, hist);
        }
        proof {
            assert forall|k: Seq<u8>| #[trigger]
                lkv@.contains_key(k) <==> old(lkv)@.contains_key(k) && !(drop_empty && (exists|
                    i: int,
                | 0 <= i < j + 1 && keys.keys()[i] == k) && forall|v: u64|
                    old(lkv)@[k]@.contains_key(v) ==> v == ver) by {
                if k == kk {
                    assert(keys.keys()[j as int] == k);
                } else {
                    assert(lkv@.contains_key(k) <==> mid@.contains_key(k));
                    if exists|i: int| 0 <= i < j + 1 && keys.keys()[i] == k {
                        let i = choose|i: int| 0 <= i < j + 1 && keys.keys()[i] == k;
                        assert(0 <= i < j && keys.keys()[i] == k);
                    }
                    if exists|i: int| 0 <= i < j && keys.keys()[i] == k {
                        let i = choose|i: int| 0 <= i < j && keys.keys()[i] == k;
                        assert(0 <= i < j + 1 && keys.keys()[i] == k);
                    }
                }
            }
            assert forall|k: Seq<u8>| #[trigger] lkv@.contains_key(k) implies history_view(lkv@[k])
                == (if exists|i: int| 0 <= i < j + 1 && keys.keys()[i] == k {
                history_view(old(lkv)@[k]).remove(ver)
            } else {
                history_view(old(lkv)@[k])
            }) && ((exists|i: int| 0 <= i < j + 1 && keys.keys()[i] == k) || lkv@[k] == old(
                lkv,
            )@[k]) by {
                if k == kk {
                    assert(keys.keys()[j as int] == k);
                } else {
                    assert(mid@.contains_key(k));
                    assert(lkv@[k] == mid@[k]);
                    if exists|i: int| 0 <= i < j + 1 && keys.keys()[i] == k {
                        let i = choose|i: int| 0 <= i < j + 1 && keys.keys()[i] == k;
                        assert(0 <= i < j && keys.keys()[i] == k);
                    }
                    if exists|i: int| 0 <= i < j && keys.keys()[i] == k {
                        let i = choose|i: int| 0 <= i < j && keys.keys()[i] == k;
                        assert(0 <= i < j + 1 && keys.keys()[i] == k);
                    }
                }
            }
        }
        j += 1;
    }
    proof {
        assert forall|k: Seq<u8>| keys@.contains_key(k) <==> exists|i: int|
            0 <= i < j && keys.keys()[i] == k by {
            if keys@.contains_key(k) {
                assert(keys.keys().contains(k));
                let i = choose|i: int| 0 <= i < keys.keys().len() && keys.keys()[i] == k;
                assert(0 <= i < j && keys.keys()[i] == k);
            }
            if exists|i: int| 0 <= i < j && keys.keys()[i] == k {
                let i = choose|i: int| 0 <= i < j && keys.keys()[i] == k;
                assert(keys.keys().contains(k));
            }
        }
    }
}

impl VsBackend {
    /// The identifier of the version called `name`.
    pub fn version_get_id_by_name(&self, name: &[u8]) -> (r: Option<u64>)
        requires
            self.wf(),
        ensures
            r == (if self@.ver_name_to_id.contains_key(name@) {
                Some(self@.ver_name_to_id[name@])
            } else {
                None
            }),
            r is Some ==> self@.ver_to_chgset.contains_key(r->0),
    {
        match self.ver_name_to_id.get(name) {
            Some(id) => {
                proof {
                    assert(self@.ver_id_to_name.contains_key(*id));
                }
                Some(*id)
            },
            None => None,
        }
    }

    /// Whether the version is among the versions of the branch.
    pub fn version_exists_on_branch(&self, ver: u64, br: u64) -> (b: bool)
        requires
            self.wf(),
        ensures
            b == self@.version_exists_on_branch(ver, br),
    {
        match self.br_to_vers.get(br) {
            Some(vers) => vers.contains_key(ver),
            None => false,
        }
    }

    /// Whether the version is among the versions of the default branch.
    pub fn version_exists(&self, ver: u64) -> (b: bool)
        requires
            self.wf(),
        ensures
            b == self@.version_exists_on_branch(ver, self@.default_branch),
    {
        self.version_exists_on_branch(ver, self.default_branch)
    }

    /// Whether the version is recorded at all, on a branch or on none.
    pub fn version_exists_globally(&self, ver: u64) -> (b: bool)
        requires
            self.wf(),
        ensures
            b == self@.version_exists_globally(ver),
    {
        self.ver_to_chgset.contains_key(ver)
    }

    /// Whether anything was written at the version.
    pub fn version_has_change_set(&self, ver: u64) -> (r: Result<bool, VsError>)
        requires
            self.wf(),
        ensures
            r == self@.version_has_change_set(ver),
    {
        match self.ver_to_chgset.get(ver) {
            Some(chgset) => {
                let empty = chgset.is_empty();
                proof {
                    chgset.lemma_keys();
                    if !empty {
                        let k = chgset.keys()[0];
                        assert(chgset.keys().contains(k));
                        assert(self@.ver_to_chgset[ver].contains(k));
                    } else {
                        assert forall|k: Seq<u8>| !self@.ver_to_chgset[ver].contains(k) by {
                            if self@.ver_to_chgset[ver].contains(k) {
                                assert(chgset.keys().contains(k));
                            }
                        }
                    }
                }
                Ok(!empty)
            },
            None => Err(VsError::VersionNotFound),
        }
    }

    /// The names of the versions `ids`, which are all recorded.
    fn names_of(&self, ids: &IdSet) -> (names: Vec<VersionNameOwned>)
        requires
            self.wf(),
            ids.wf(),
            forall|v: u64| ids@.contains_key(v) ==> self@.ver_to_chgset.contains_key(v),
        ensures
            version_names_view(names@) == self@.names_of(ids.ids()),
    {
        let mut names: Vec<VersionNameOwned> = Vec::new();
        let n = ids.len();
        let mut i: usize = 0;
        proof {
            ids.lemma_ids();
        }
        while i < n
            invariant
                self.wf(),
                ids.wf(),
                lists_ids(ids.ids(), ids@.dom()),
                forall|v: u64| ids@.contains_key(v) ==> self@.ver_to_chgset.contains_key(v),
                n == ids.ids().len(),
                i <= n,
                names@.len() == i,
                forall|j: int| 0 <= j < i ==> names@[j].0@ == self@.ver_id_to_name[ids.ids()[j]],
            decreases n - i,
        {
            let id = ids.id_at(i);
            proof {
                assert(self@.ver_to_chgset.contains_key(id));
                assert(self@.ver_id_to_name.contains_key(id));
            }
            let name = self.ver_id_to_name.get(id).unwrap();
            names.push(VersionNameOwned(name.clone()));
            i += 1;
        }
        proof {
            assert(version_names_view(names@) =~= self@.names_of(ids.ids()));
        }
        names
    }

    /// The names of the versions of branch `br`, oldest first.
    pub fn version_list_by_branch(&self, br: u64) -> (r: Result<Vec<VersionNameOwned>, VsError>)
        requires
            self.wf(),
        ensures
            match self@.version_list_by_branch(br) {
                Ok(names) => r is Ok && version_names_view(r->Ok_0@) == names,
                Err(e) => r == Err::<Vec<VersionNameOwned>, VsError>(e),
            },
    {
        match self.br_to_vers.get(br) {
            Some(vers) => {
                proof {
                    assert(self@.br_to_vers[br] == vers@.dom());
                    assert forall|v: u64| vers@.contains_key(
                        v,
                    ) implies self@.ver_to_chgset.contains_key(v) by {
                        assert(self@.br_to_vers[br].contains(v));
                    }
                }
                Ok(self.names_of(vers))
            },
            None => Err(VsError::BranchNotFound),
        }
    }

    /// The names of the versions of the default branch, oldest first.
    pub fn version_list(&self) -> (r: Result<Vec<VersionNameOwned>, VsError>)
        requires
            self.wf(),
        ensures
            match self@.version_list_by_branch(self@.default_branch) {
                Ok(names) => r is Ok && version_names_view(r->Ok_0@) == names,
                Err(e) => r == Err::<Vec<VersionNameOwned>, VsError>(e),
            },
    {
        self.version_list_by_branch(self.default_branch)
    }

    /// The names of all recorded versions, oldest first.
    pub fn version_list_globally(&self) -> (names: Vec<VersionNameOwned>)
        requires
            self.wf(),
        ensures
            version_names_view(names@) == self@.version_list_globally(),
    {
        let mut names: Vec<VersionNameOwned> = Vec::new();
        let n = self.ver_to_chgset.len();
        let mut i: usize = 0;
        proof {
            assert(self@.ver_to_chgset.dom() =~= self.ver_to_chgset@.dom());
            self.ver_to_chgset.lemma_ids();
        }
        let ghost ids = self.ver_to_chgset.ids();
        while i < n
            invariant
                self.wf(),
                ids == self.ver_to_chgset.ids(),
                lists_ids(ids, self.ver_to_chgset@.dom()),
                n == ids.len(),
                i <= n,
                names@.len() == i,
                forall|j: int| 0 <= j < i ==> names@[j].0@ == self@.ver_id_to_name[ids[j]],
            decreases n - i,
        {
            let id = self.ver_to_chgset.id_at(i);
            proof {
                assert(self@.ver_to_chgset.contains_key(id));
                assert(self@.ver_id_to_name.contains_key(id));
            }
            let name = self.ver_id_to_name.get(id).unwrap();
            names.push(VersionNameOwned(name.clone()));
            i += 1;
        }
        proof {
            assert(version_names_view(names@) =~= self@.version_list_globally());
        }
        names
    }

    /// Forgets version `ver`, which no branch sees: its change set, its name
    /// and its entries in the histories go.
    pub(crate) fn purge_version(&mut self, ver: u64, drop_empty: bool)
        requires
            old(self).wf(),
            old(self)@.ver_to_chgset.contains_key(ver),
            forall|b: u64|
                old(self)@.br_to_vers.contains_key(b) ==> !(#[trigger] old(
                    self,
                )@.br_to_vers[b].contains(ver)),
        ensures
            final(self).wf(),
            final(self)@ == old(self)@.strip(set![ver], drop_empty),
    {
        let ghost before = *self;
        proof {
            lemma_strip_inv(before@, set![ver], drop_empty);
            assert(before@.ver_id_to_name.contains_key(ver));
        }
        let chgset = self.ver_to_chgset.remove(ver).unwrap();
        let name = self.ver_id_to_name.remove(ver).unwrap();
        self.ver_name_to_id.remove(name.as_slice());
        proof {
            assert forall|k: Seq<u8>| #[trigger] chgset@.contains_key(k) implies self.lkv@.contains_key(
            k) && self.lkv@[k]@.contains_key(ver) by {
                assert(before@.ver_to_chgset[ver].contains(k));
                assert(before@.lkv.contains_key(k) && before@.lkv[k].contains_key(ver));
            }
        }
        erase_entries(&mut self.lkv, &chgset, ver, drop_empty);
        proof {
            let want = before@.strip(set![ver], drop_empty);
            assert(self@.ver_to_chgset =~= want.ver_to_chgset);
            assert(self@.ver_id_to_name =~= want.ver_id_to_name);
            assert(self@.ver_name_to_id =~= want.ver_name_to_id) by {
                assert forall|n: Seq<u8>| self@.ver_name_to_id.contains_key(n)
                    <==> want.ver_name_to_id.contains_key(n) by {
                    if before@.ver_name_to_id.contains_key(n) {
                        assert(before@.ver_id_to_name.contains_key(before@.ver_name_to_id[n]));
                    }
                }
            }
            assert forall|k: Seq<u8>| self@.lkv.contains_key(k) <==> want.lkv.contains_key(k) by {
                if before@.lkv.contains_key(k) {
                    let h = before@.lkv[k];
                    if VsState::only_at(h, set![ver]) {
                        let v = choose|v: u64| h.contains_key(v);
                        assert(set![ver].contains(v));
                        assert(before@.ver_to_chgset[ver].contains(k));
                        assert(chgset@.contains_key(k));
                        assert forall|v: u64| before.lkv@[k]@.contains_key(v) implies v == ver by {
                            assert(h.contains_key(v));
                            assert(set![ver].contains(v));
                        }
                    }
                    if chgset@.contains_key(k) && (forall|v: u64|
                        before.lkv@[k]@.contains_key(v) ==> v == ver) {
                        assert(h.contains_key(ver));
                        assert forall|v: u64| h.contains_key(v) implies set![ver].contains(v) by {
                            assert(before.lkv@[k]@.contains_key(v));
                        }
                        assert(VsState::only_at(h, set![ver]));
                    }
                }
            }
            assert forall|k: Seq<u8>| self@.lkv.contains_key(k) implies #[trigger] self@.lkv[k]
                == want.lkv[k] by {
                let h = before@.lkv[k];
                if chgset@.contains_key(k) {
                    assert(h.remove(ver) =~= h.remove_keys(set![ver]));
                } else {
                    if h.contains_key(ver) {
                        assert(before@.ver_to_chgset[ver].contains(k));
                    }
                    assert(h =~= h.remove_keys(set![ver]));
                }
            }
            assert(self@.lkv =~= want.lkv);
            assert(self@ =~= want);
        }
    }

    /// Takes version `ver` out of every branch.
    pub(crate) fn detach_version(&mut self, ver: u64)
        requires
            old(self).wf(),
        ensures
            final(self).wf(),
            final(self)@ == old(self)@.detach(set![ver]),
    {
        let ghost before = *self;
        let n = self.br_to_vers.len();
        let mut i: usize = 0;
        proof {
            self.br_to_vers.lemma_ids();
        }
        let ghost brs = self.br_to_vers.ids();
        while i < n
            invariant
                self.br_to_vers.wf(),
                forall|b: u64| #[trigger]
                    self.br_to_vers@.contains_key(b) ==> self.br_to_vers@[b].wf(),
                brs == self.br_to_vers.ids(),
                self.br_to_vers@.dom() == before.br_to_vers@.dom(),
                lists_ids(brs, before.br_to_vers@.dom()),
                n == brs.len(),
                i <= n,
                self.default_branch == before.default_branch,
                self.br_name_to_id == before.br_name_to_id,
                self.ver_name_to_id == before.ver_name_to_id,
                self.br_id_to_name == before.br_id_to_name,
                self.ver_id_to_name == before.ver_id_to_name,
                self.ver_to_chgset == before.ver_to_chgset,
                self.lkv == before.lkv,
                self.next_br_id == before.next_br_id,
                self.next_ver_id == before.next_ver_id,
                forall|j: int|
                    0 <= j < i ==> (#[trigger] self.br_to_vers@[brs[j]])@.dom()
                        == before.br_to_vers@[brs[j]]@.dom().remove(ver),
                forall|j: int|
                    i <= j < n ==> (#[trigger] self.br_to_vers@[brs[j]])
                        == before.br_to_vers@[brs[j]],
            decreases n - i,
        {
            let ghost mid = self.br_to_vers;
            let mut vers = self.br_to_vers.replace_at(i, IdMap::new());
            vers.remove(ver);
            self.br_to_vers.replace_at(i, vers);
            proof {
                assert(self.br_to_vers@.dom() =~= before.br_to_vers@.dom());
                assert forall|j: int| 0 <= j < i + 1 implies (#[trigger] self.br_to_vers@[brs[j]])@.dom()
                    == before.br_to_vers@[brs[j]]@.dom().remove(ver) by {
                    if j < i {
                        assert(brs[j] != brs[i as int]);
                        assert(self.br_to_vers@[brs[j]] == mid@[brs[j]]);
                    } else {
                        assert(mid@[brs[j]] == before.br_to_vers@[brs[j]]);
                        assert(self.br_to_vers@[brs[j]]@.dom() =~= before.br_to_vers@[brs[j]]@.dom().remove(
                            ver,
                        ));
                    }
                }
                assert forall|j: int| i + 1 <= j < n implies (#[trigger] self.br_to_vers@[brs[j]])
                    == before.br_to_vers@[brs[j]] by {
                    assert(brs[j] != brs[i as int]);
                    assert(self.br_to_vers@[brs[j]] == mid@[brs[j]]);
                }
                assert forall|b: u64| #[trigger]
                    self.br_to_vers@.contains_key(b) implies self.br_to_vers@[b].wf() by {
                    if b != brs[i as int] {
                        assert(mid@.contains_key(b));
                        assert(self.br_to_vers@[b] == mid@[b]);
                    }
                }
            }
            i += 1;
        }
        proof {
            lemma_detach_inv(before@, set![ver]);
            let want = before@.detach(set![ver]);
            assert forall|b: u64| self@.br_to_vers.contains_key(b) implies #[trigger] self@.br_to_vers[b]
                == want.br_to_vers[b] by {
                assert(brs.contains(b));
                let j = choose|j: int| 0 <= j < n && brs[j] == b;
                assert(self.br_to_vers@[brs[j]]@.dom() == before.br_to_vers@[brs[j]]@.dom().remove(
                    ver,
                ));
                assert(self@.br_to_vers[b] =~= want.br_to_vers[b]);
            }
            assert(self@.br_to_vers =~= want.br_to_vers);
            assert(self@ =~= want);
        }
    }

    /// Forgets version `ver` everywhere: no branch sees it any more, and
    /// what was written at it is gone. A branch that read through this
    /// version reads what older versions wrote from then on.
    pub fn version_revert_globally(&mut self, ver: u64) -> (r: Result<(), VsError>)
        requires
            old(self).wf(),
        ensures
            final(self).wf(),
            match old(self)@.version_revert_globally(ver) {
                Ok(s) => final(self)@ == s && r is Ok,
                Err(e) => final(self)@ == old(self)@ && r == Err::<(), VsError>(e),
            },
    {
        if !self.ver_to_chgset.contains_key(ver) {
            return Err(VsError::VersionNotFound);
        }
        proof {
            lemma_detach_inv(self@, set![ver]);
        }
        self.detach_version(ver);
        self.purge_version(ver, false);
        Ok(())
    }

    /// The recorded versions that no branch sees, oldest first.
    fn orphan_versions(&self) -> (r: Vec<u64>)
        requires
            self.wf(),
        ensures
            ids_rising(r@),
            forall|v: u64| r@.contains(v) <==> self@.orphans().contains(v),
    {
        let mut seen: IdSet = IdMap::new();
        let nb = self.br_to_vers.len();
        let mut b: usize = 0;
        proof {
            self.br_to_vers.lemma_ids();
        }
        let ghost brs = self.br_to_vers.ids();
        while b < nb
            invariant
                self.wf(),
                seen.wf(),
                brs == self.br_to_vers.ids(),
                lists_ids(brs, self.br_to_vers@.dom()),
                nb == brs.len(),
                b <= nb,
                forall|v: u64|
                    seen@.contains_key(v) <==> exists|j: int|
                        0 <= j < b && (#[trigger] self.br_to_vers@[brs[j]])@.contains_key(v),
            decreases nb - b,
        {
            let vers = self.br_to_vers.value_at(b);
            let ghost before = seen;
            proof {
                vers.lemma_ids();
            }
            super::branches::copy_from(&mut seen, vers, 0);
            proof {
                assert forall|v: u64|
                    seen@.contains_key(v) <==> exists|j: int|
                        0 <= j < b + 1 && (#[trigger] self.br_to_vers@[brs[j]])@.contains_key(
                            v,
                        ) by {
                    if seen@.contains_key(v) {
                        if before@.contains_key(v) {
                            let j = choose|j: int|
                                0 <= j < b && (#[trigger] self.br_to_vers@[brs[j]])@.contains_key(v);
                            assert(0 <= j < b + 1 && self.br_to_vers@[brs[j]]@.contains_key(v));
                        } else {
                            let i = choose|i: int| 0 <= i < vers.ids().len() && vers.ids()[i] == v;
                            assert(vers.ids().contains(v));
                            assert(self.br_to_vers@[brs[b as int]]@.contains_key(v));
                        }
                    }
                    if exists|j: int|
                        0 <= j < b + 1 && (#[trigger] self.br_to_vers@[brs[j]])@.contains_key(v) {
                        let j = choose|j: int|
                            0 <= j < b + 1 && (#[trigger] self.br_to_vers@[brs[j]])@.contains_key(v);
                        if j < b {
                            assert(before@.contains_key(v));
                        } else {
                            assert(vers.ids().contains(v));
                            let i = choose|i: int| 0 <= i < vers.ids().len() && vers.ids()[i] == v;
                            assert(0 <= i < vers.ids().len() && vers.ids()[i] == v);
                        }
                    }
                }
            }
            b += 1;
        }
        let mut r: Vec<u64> = Vec::new();
        let n = self.ver_to_chgset.len();
        let mut i: usize = 0;
        proof {
            self.ver_to_chgset.lemma_ids();
        }
        let ghost ids = self.ver_to_chgset.ids();
        while i < n
            invariant
                self.wf(),
                seen.wf(),
                ids == self.ver_to_chgset.ids(),
                lists_ids(ids, self.ver_to_chgset@.dom()),
                n == ids.len(),
                i <= n,
                ids_rising(r@),
                forall|j: int| 0 <= j < r@.len() ==> first_of(ids, i as int).contains(#[trigger] r@[j]),
                forall|v: u64|
                    r@.contains(v) <==> first_of(ids, i as int).contains(v) && !seen@.contains_key(v),
            decreases n - i,
        {
            let v = self.ver_to_chgset.id_at(i);
            let ghost before = r@;
            if !seen.contains_key(v) {
                r.push(v);
                proof {
                    assert forall|a: int, c: int| 0 <= a < c < r@.len() implies r@[a] < r@[c] by {
                        if c == r@.len() - 1 {
                            assert(first_of(ids, i as int).contains(before[a]));
                            let t = choose|t: int| 0 <= t < i && ids[t] == before[a];
                            assert(ids[t] < ids[i as int]);
                        } else {
                            assert(before[a] < before[c]);
                        }
                    }
                }
            }
            proof {
                assert forall|w: u64| first_of(ids, i as int).contains(w) implies first_of(
                    ids,
                    i + 1,
                ).contains(w) by {
                    let t = choose|t: int| 0 <= t < i && ids[t] == w;
                    assert(0 <= t < i + 1 && ids[t] == w);
                }
                assert(first_of(ids, i + 1).contains(v)) by {
                    assert(0 <= i < i + 1 && ids[i as int] == v);
                }
                assert forall|j: int| 0 <= j < r@.len() implies first_of(ids, i + 1).contains(
                    #[trigger] r@[j],
                ) by {
                    if j < before.len() {
                        assert(first_of(ids, i as int).contains(before[j]));
                    }
                }
                assert forall|w: u64|
                    r@.contains(w) <==> first_of(ids, i + 1).contains(w) && !seen@.contains_key(
                        w,
                    ) by {
                    if r@.contains(w) {
                        let j = choose|j: int| 0 <= j < r@.len() && r@[j] == w;
                        if j < before.len() {
                            assert(before[j] == w);
                            assert(before.contains(w));
                        }
                    }
                    if first_of(ids, i + 1).contains(w) && !seen@.contains_key(w) {
                        let t = choose|t: int| 0 <= t < i + 1 && ids[t] == w;
                        if t < i {
                            assert(first_of(ids, i as int).contains(w));
                            assert(before.contains(w));
                            let j = choose|j: int| 0 <= j < before.len() && before[j] == w;
                            assert(r@[j] == w);
                        } else {
                            assert(r@[r@.len() - 1] == w);
                        }
                    }
                }
            }
            i += 1;
        }
        proof {
            assert forall|v: u64| r@.contains(v) <==> self@.orphans().contains(v) by {
                if r@.contains(v) {
                    assert(first_of(ids, i as int).contains(v));
                    let t = choose|t: int| 0 <= t < i && ids[t] == v;
                    assert(ids.contains(v));
                    assert(self@.ver_to_chgset.contains_key(v));
                    assert forall|br: u64| self@.br_to_vers.contains_key(br) implies !(
                    #[trigger] self@.br_to_vers[br].contains(v)) by {
                        if self@.br_to_vers[br].contains(v) {
                            assert(brs.contains(br));
                            let j = choose|j: int| 0 <= j < nb && brs[j] == br;
                            assert(self.br_to_vers@[brs[j]]@.contains_key(v));
                        }
                    }
                }
                if self@.orphans().contains(v) {
                    assert(ids.contains(v));
                    let t = choose|t: int| 0 <= t < n && ids[t] == v;
                    if seen@.contains_key(v) {
                        let j = choose|j: int|
                            0 <= j < nb && (#[trigger] self.br_to_vers@[brs[j]])@.contains_key(v);
                        assert(brs.contains(brs[j]));
                        assert(self@.br_to_vers.contains_key(brs[j]));
                        assert(self@.br_to_vers[brs[j]].contains(v));
                    }
                    assert(0 <= t < i && ids[t] == v);
                    assert(first_of(ids, i as int).contains(v));
                }
            }
        }
        r
    }

    /// Forgets the versions `vers`, none of which a branch sees.
    pub(crate) fn purge_versions(&mut self, vers: &Vec<u64>, drop_empty: bool)
        requires
            old(self).wf(),
            ids_rising(vers@),
            forall|j: int|
                0 <= j < vers@.len() ==> old(self)@.ver_to_chgset.contains_key(#[trigger] vers@[j]),
            forall|b: u64, v: u64|
                old(self)@.br_to_vers.contains_key(b) && #[trigger] old(
                    self,
                )@.br_to_vers[b].contains(v) ==> !vers@.contains(v),
        ensures
            final(self).wf(),
            final(self)@ == old(self)@.strip(members(vers@), drop_empty),
    {
        let ghost before = *self;
        let n = vers.len();
        let mut i: usize = 0;
        proof {
            lemma_strip_nothing(before@, drop_empty);
            assert(first_of(vers@, 0) =~= Set::<u64>::empty());
        }
        while i < n
            invariant
                self.wf(),
                n == vers@.len(),
                i <= n,
                ids_rising(vers@),
                forall|j: int|
                    0 <= j < vers@.len() ==> before@.ver_to_chgset.contains_key(
                        #[trigger] vers@[j],
                    ),
                forall|b: u64, v: u64|
                    before@.br_to_vers.contains_key(b) && #[trigger] before@.br_to_vers[b].contains(
                        v,
                    ) ==> !vers@.contains(v),
                self@ == before@.strip(first_of(vers@, i as int), drop_empty),
            decreases n - i,
        {
            let v = vers[i];
            let ghost mid = self@;
            proof {
                assert(before@.ver_to_chgset.contains_key(vers@[i as int]));
                assert(!first_of(vers@, i as int).contains(v)) by {
                    if first_of(vers@, i as int).contains(v) {
                        let j = choose|j: int| 0 <= j < i && vers@[j] == v;
                        assert(vers@[j] < vers@[i as int]);
                    }
                }
                assert(mid.ver_to_chgset.contains_key(v));
                assert forall|b: u64| mid.br_to_vers.contains_key(b) implies !(
                #[trigger] mid.br_to_vers[b].contains(v)) by {
                    if mid.br_to_vers[b].contains(v) {
                        assert(before@.br_to_vers[b].contains(v));
                        assert(vers@.contains(vers@[i as int]));
                    }
                }
            }
            self.purge_version(v, drop_empty);
            proof {
                lemma_strip_twice(before@, first_of(vers@, i as int), set![v], drop_empty);
                assert(first_of(vers@, i as int).union(set![v]) =~= first_of(vers@, i + 1)) by {
                    assert forall|w: u64|
                        first_of(vers@, i as int).union(set![v]).contains(w) <==> first_of(
                            vers@,
                            i + 1,
                        ).contains(w) by {
                        if first_of(vers@, i as int).contains(w) {
                            let j = choose|j: int| 0 <= j < i && vers@[j] == w;
                            assert(0 <= j < i + 1 && vers@[j] == w);
                        }
                        if w == v {
                            assert(0 <= i < i + 1 && vers@[i as int] == w);
                        }
                        if first_of(vers@, i + 1).contains(w) {
                            let j = choose|j: int| 0 <= j < i + 1 && vers@[j] == w;
                            if j < i {
                                assert(first_of(vers@, i as int).contains(w));
                            }
                        }
                    }
                }
            }
            i += 1;
        }
    }

    /// Forgets every version that no branch sees: its change set, its name
    /// and its entries go, and a key left without any entry goes with them.
    pub fn version_clean_up_globally(&mut self) -> (r: Result<(), VsError>)
        requires
            old(self).wf(),
        ensures
            final(self).wf(),
            r is Ok,
            final(self)@ == old(self)@.version_clean_up_globally(),
    {
        let orphans = self.orphan_versions();
        proof {
            assert forall|j: int| 0 <= j < orphans@.len() implies self@.ver_to_chgset.contains_key(
                #[trigger] orphans@[j],
            ) by {
                assert(orphans@.contains(orphans@[j]));
                assert(self@.orphans().contains(orphans@[j]));
            }
            assert forall|b: u64, v: u64|
                self@.br_to_vers.contains_key(b) && #[trigger] self@.br_to_vers[b].contains(
                    v,
                ) implies !orphans@.contains(v) by {
                if orphans@.contains(v) {
                    assert(self@.orphans().contains(v));
                }
            }
            assert(first_of(orphans@, orphans@.len() as int) =~= self@.orphans()) by {
                assert forall|v: u64|
                    first_of(orphans@, orphans@.len() as int).contains(v)
                        <==> self@.orphans().contains(v) by {
                    if first_of(orphans@, orphans@.len() as int).contains(v) {
                        let j = choose|j: int| 0 <= j < orphans@.len() && orphans@[j] == v;
                        assert(orphans@.contains(v));
                    }
                    if self@.orphans().contains(v) {
                        assert(orphans@.contains(v));
                        let j = choose|j: int| 0 <= j < orphans@.len() && orphans@[j] == v;
                        assert(0 <= j < orphans@.len() && orphans@[j] == v);
                    }
                }
            }
        }
        self.purge_versions(&orphans, true);
        Ok(())
    }
}

} // verus!
