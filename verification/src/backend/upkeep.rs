//! Keeping a chosen set of branches, clearing the map, and hashing what a
//! version changed.

use super::VsBackend;
use crate::common::{VsError, INITIAL_BRANCH_ID};
use crate::idmap::IdMap;
use crate::order::{
    first_of, ids_rising, lemma_first_of_below, lemma_first_of_none, lemma_first_of_step,
    lists_ids, lists_keys, members,
};
use crate::trie::{entries_view, trie_root, trie_root_of};
use crate::validity::{
    lemma_cleared_inv, lemma_head, lemma_without_branch_is_set, lemma_without_branches_nothing,
    lemma_without_branches_twice,
};
use vstd::prelude::*;

verus! {

/// Whether `id` is one of `ids`.
fn is_among(ids: &[u64], id: u64) -> (b: bool)
    ensures
        b == ids@.contains(id),
{
    let mut i: usize = 0;
    while i < ids.len()
        invariant
            i <= ids@.len(),
            forall|j: int| 0 <= j < i ==> ids@[j] != id,
        decreases ids@.len() - i,
    {
        if ids[i] == id {
            return true;
        }
        i += 1;
    }
    false
}

impl VsBackend {
    /// Removes every branch that is not one of `br_ids`, and then forgets
    /// every version that no branch sees.
    pub fn branch_keep_only(&mut self, br_ids: &[u64]) -> (r: Result<(), VsError>)
        requires
            old(self).wf(),
        ensures
            final(self).wf(),
            r is Ok,
            final(self)@ == old(self)@.branch_keep_only(br_ids@.to_set()),
    {
        let ghost before = *self;
        let ghost keep = br_ids@.to_set();
        let mut gone: Vec<u64> = Vec::new();
        let n = self.br_to_vers.len();
        let mut i: usize = 0;
        proof {
            self.br_to_vers.lemma_ids();
        }
        let ghost brs = self.br_to_vers.ids();
        while i < n
            invariant
                self.wf(),
                brs == self.br_to_vers.ids(),
                lists_ids(brs, self.br_to_vers@.dom()),
                n == brs.len(),
                i <= n,
                keep == br_ids@.to_set(),
                ids_rising(gone@),
                forall|j: int| 0 <= j < gone@.len() ==> first_of(brs, i as int).contains(
                    #[trigger] gone@[j],
                ),
                forall|b: u64|
                    gone@.contains(b) <==> first_of(brs, i as int).contains(b) && !keep.contains(b),
            decreases n - i,
        {
            let id = self.br_to_vers.id_at(i);
            let ghost old_gone = gone@;
            if !is_among(br_ids, id) {
                gone.push(id);
                proof {
                    lemma_first_of_below(brs, i as int);
                    assert forall|a: int, c: int| 0 <= a < c < gone@.len() implies gone@[a]
                        < gone@[c] by {
                        if c == gone@.len() - 1 {
                            assert(first_of(brs, i as int).contains(old_gone[a]));
                        } else {
                            assert(old_gone[a] < old_gone[c]);
                        }
                    }
                }
            }
            proof {
                lemma_first_of_step(brs, i as int);
                assert forall|j: int| 0 <= j < gone@.len() implies first_of(brs, i + 1).contains(
                    #[trigger] gone@[j],
                ) by {
                    if j < old_gone.len() {
                        assert(first_of(brs, i as int).contains(old_gone[j]));
                    }
                }
                assert forall|b: u64|
                    gone@.contains(b) <==> first_of(brs, i + 1).contains(b) && !keep.contains(
                        b,
                    ) by {
                    if gone@.contains(b) {
                        let j = choose|j: int| 0 <= j < gone@.len() && gone@[j] == b;
                        if j < old_gone.len() {
                            assert(old_gone[j] == b);
                            assert(old_gone.contains(b));
                        }
                    }
                    if first_of(brs, i + 1).contains(b) && !keep.contains(b) {
                        if b == id {
                            assert(gone@[gone@.len() - 1] == b);
                        } else {
                            assert(old_gone.contains(b));
                            let j = choose|j: int| 0 <= j < old_gone.len() && old_gone[j] == b;
                            assert(gone@[j] == b);
                        }
                    }
                }
            }
            i += 1;
        }
        let m = gone.len();
        let mut j: usize = 0;
        proof {
            lemma_first_of_none(gone@);
            lemma_without_branches_nothing(before@);
        }
        while j < m
            invariant
                self.wf(),
                m == gone@.len(),
                j <= m,
                ids_rising(gone@),
                forall|t: int| 0 <= t < gone@.len() ==> before@.br_to_vers.contains_key(
                    #[trigger] gone@[t],
                ),
                self@ == before@.without_branches(first_of(gone@, j as int)),
            decreases m - j,
        {
            let id = gone[j];
            proof {
                lemma_first_of_below(gone@, j as int);
                assert(before@.br_to_vers.contains_key(gone@[j as int]));
                lemma_without_branch_is_set(self@, id);
                lemma_without_branches_twice(before@, first_of(gone@, j as int), set![id]);
                lemma_first_of_step(gone@, j as int);
                assert(first_of(gone@, j as int).union(set![id]) =~= first_of(
                    gone@,
                    j as int,
                ).insert(id));
            }
            let removed = self.branch_remove(id);
            j += 1;
        }
        proof {
            // the branches that went are those that were not to be kept
            let all = members(gone@);
            let want = Set::new(|b: u64| !keep.contains(b));
            let t = before@.without_branches(all);
            let u = before@.without_branches(want);
            assert forall|b: u64| before@.br_to_vers.contains_key(b) implies (all.contains(b)
                <==> want.contains(b)) by {
                assert(brs.contains(b));
                let x = choose|x: int| 0 <= x < n && brs[x] == b;
                assert(first_of(brs, n as int).contains(b));
                if all.contains(b) {
                    let y = choose|y: int| 0 <= y < gone@.len() && gone@[y] == b;
                    assert(gone@.contains(b));
                }
                if want.contains(b) {
                    assert(gone@.contains(b));
                    let y = choose|y: int| 0 <= y < gone@.len() && gone@[y] == b;
                    assert(0 <= y < gone@.len() && gone@[y] == b);
                }
            }
            assert(t.br_to_vers =~= u.br_to_vers);
            assert(t.br_id_to_name =~= u.br_id_to_name);
            assert(t.br_name_to_id =~= u.br_name_to_id) by {
                assert forall|nm: Seq<u8>| t.br_name_to_id.contains_key(nm)
                    <==> u.br_name_to_id.contains_key(nm) by {
                    if before@.br_name_to_id.contains_key(nm) {
                        assert(before@.br_id_to_name.contains_key(before@.br_name_to_id[nm]));
                    }
                }
            }
            assert(t =~= u);
        }
        self.version_clean_up_globally()
    }

    /// Drops all branches, versions and data, and starts again with the
    /// initial branch. Identifiers handed out before are not handed out
    /// again.
    pub fn clear(&mut self)
        requires
            old(self).wf(),
        ensures
            final(self).wf(),
            final(self)@ == old(self)@.cleared(),
    {
        let ghost before = *self;
        self.br_name_to_id.clear();
        self.ver_name_to_id.clear();
        self.br_id_to_name.clear();
        self.ver_id_to_name.clear();
        self.br_to_vers.clear();
        self.ver_to_chgset.clear();
        self.lkv.clear();
        self.default_branch = INITIAL_BRANCH_ID;
        let name = crate::common::initial_branch_name_bytes();
        self.br_name_to_id.insert(name.as_slice(), INITIAL_BRANCH_ID);
        self.br_id_to_name.insert(INITIAL_BRANCH_ID, name);
        self.br_to_vers.insert(INITIAL_BRANCH_ID, IdMap::new());
        proof {
            lemma_cleared_inv(before@);
            assert(self@ =~= before@.cleared());
        }
    }

    /// The keys written at a version, each with the value written, in
    /// lexicographic order of the keys. The version is the one given, or
    /// else the newest of the branch given, or else the newest of the default
    /// branch.
    pub fn version_chgset_entries(&self, br: Option<u64>, ver: Option<u64>) -> (r: Result<
        Vec<(Vec<u8>, Vec<u8>)>,
        VsError,
    >)
        requires
            self.wf(),
        ensures
            match self@.resolve_version(br, ver) {
                Ok(v) => r is Ok && entries_view(r->Ok_0@) == self@.change_entries(v),
                Err(e) => r == Err::<Vec<(Vec<u8>, Vec<u8>)>, VsError>(e),
            },
    {
        let v: u64 = match ver {
            Some(v) => v,
            None => {
                let b = match br {
                    Some(b) => b,
                    None => self.default_branch,
                };
                if !self.br_to_vers.contains_key(b) {
                    return Err(VsError::BranchNotFound);
                }
                match self.head_of(b) {
                    Some(h) => {
                        proof {
                            lemma_head(self@.br_to_vers[b]);
                        }
                        h
                    },
                    None => {
                        return Err(VsError::VersionNotFound);
                    },
                }
            },
        };
        let chgset = match self.ver_to_chgset.get(v) {
            Some(chgset) => chgset,
            None => {
                return Err(VsError::VersionNotFound);
            },
        };
        let mut entries: Vec<(Vec<u8>, Vec<u8>)> = Vec::new();
        let n = chgset.len();
        let mut i: usize = 0;
        proof {
            chgset.lemma_keys();
            assert(chgset@.dom() == self@.ver_to_chgset[v]);
        }
        let ghost q = chgset.keys();
        while i < n
            invariant
                self.wf(),
                chgset.wf(),
                q == chgset.keys(),
                lists_keys(q, chgset@.dom()),
                self@.ver_to_chgset.contains_key(v),
                chgset@.dom() == self@.ver_to_chgset[v],
                n == q.len(),
                i <= n,
                entries@.len() == i,
                forall|j: int|
                    0 <= j < i ==> (#[trigger] entries@[j]).0@ == q[j] && entries@[j].1@
                        == self@.lkv[q[j]][v],
            decreases n - i,
        {
            let key = chgset.key_at(i);
            proof {
                assert(q.contains(key@));
                assert(self@.ver_to_chgset[v].contains(key@));
                assert(self@.lkv.contains_key(key@) && self@.lkv[key@].contains_key(v));
            }
            let hist = self.lkv.get(key.as_slice()).unwrap();
            let value = hist.get(v).unwrap();
            entries.push((key.clone(), value.clone()));
            i += 1;
        }
        proof {
            assert(entries_view(entries@) =~= self@.change_entries(v));
        }
        Ok(entries)
    }

    /// The root hash of the Merkle-Patricia trie, over Keccak-256, of what
    /// was written at a version: the keys of its change set with the values
    /// written. The version is the one given, or else the newest of the
    /// branch given, or else the newest of the default branch.
    pub fn version_chgset_trie_root(&self, br: Option<u64>, ver: Option<u64>) -> (r: Result<
        Vec<u8>,
        VsError,
    >)
        requires
            self.wf(),
        ensures
            match self@.resolve_version(br, ver) {
                Ok(v) => r is Ok && r->Ok_0@ == trie_root_of(self@.change_entries(v)),
                Err(e) => r == Err::<Vec<u8>, VsError>(e),
            },
    {
        match self.version_chgset_entries(br, ver) {
            Ok(entries) => Ok(trie_root(&entries)),
            Err(e) => Err(e),
        }
    }
}

} // verus!
