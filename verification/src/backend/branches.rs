//! Operations on branches.

use super::VsBackend;
use crate::common::{BranchNameOwned, VsError};
use crate::idmap::{IdMap, IdSet};
use crate::model::{upto, VsState};
use crate::order::lists_ids;
use crate::validity::{
    lemma_branch_merge_inv, lemma_branch_pop_version_inv, lemma_branch_swap_inv,
    lemma_branch_truncate_inv, lemma_branch_truncate_to_inv, lemma_cleared_for_inv, lemma_head,
    lemma_with_new_branch_inv, lemma_without_branch_inv,
};
use vstd::prelude::*;

verus! {

/// The names that a list of owned branch names holds.
pub open spec fn branch_names_view(names: Seq<BranchNameOwned>) -> Seq<Seq<u8>> {
    Seq::new(names.len(), |i: int| names[i].0@)
}

/// A copy of the members of `vers` that are at most `top`.
fn copy_upto(vers: &IdSet, top: u64) -> (r: IdSet)
    requires
        vers.wf(),
    ensures
        r.wf(),
        r@.dom() == upto(vers@.dom(), top),
{
    let n = vers.count_upto(top);
    let mut r: IdSet = IdMap::new();
    let mut i: usize = 0;
    proof {
        vers.lemma_ids();
    }
    while i < n
        invariant
            vers.wf(),
            r.wf(),
            i <= n <= vers.ids().len(),
            lists_ids(vers.ids(), vers@.dom()),
            forall|v: u64|
                r@.contains_key(v) <==> exists|j: int| 0 <= j < i && vers.ids()[j] == v,
        decreases n - i,
    {
        let id = vers.id_at(i);
        let ghost before = r;
        r.insert(id, ());
        proof {
            assert forall|v: u64| r@.contains_key(v) <==> exists|j: int|
                0 <= j < i + 1 && vers.ids()[j] == v by {
                if r@.contains_key(v) {
                    if v == id {
                        assert(vers.ids()[i as int] == v);
                    } else {
                        assert(before@.contains_key(v));
                        let j = choose|j: int| 0 <= j < i && vers.ids()[j] == v;
                        assert(0 <= j < i + 1 && vers.ids()[j] == v);
                    }
                }
                if exists|j: int| 0 <= j < i + 1 && vers.ids()[j] == v {
                    let j = choose|j: int| 0 <= j < i + 1 && vers.ids()[j] == v;
                    if j < i {
                        assert(before@.contains_key(v));
                    }
                }
            }
        }
        i += 1;
    }
    proof {
        assert forall|v: u64| r@.dom().contains(v) <==> upto(vers@.dom(), top).contains(v) by {
            if r@.dom().contains(v) {
                let j = choose|j: int| 0 <= j < i && vers.ids()[j] == v;
                assert(vers.ids().contains(v));
            }
            if upto(vers@.dom(), top).contains(v) {
                assert(vers.ids().contains(v));
                let j = choose|j: int| 0 <= j < vers.ids().len() && vers.ids()[j] == v;
                assert(j < n);
            }
        }
        assert(r@.dom() =~= upto(vers@.dom(), top));
    }
    r
}

/// Puts into `target` the members of `source` from position `start` of its
/// ascending order onward.
pub(crate) fn copy_from(target: &mut IdSet, source: &IdSet, start: usize)
    requires
        old(target).wf(),
        source.wf(),
        start <= source.ids().len(),
    ensures
        final(target).wf(),
        forall|v: u64|
            final(target)@.contains_key(v) <==> old(target)@.contains_key(v) || exists|j: int|
                start <= j < source.ids().len() && source.ids()[j] == v,
{
    let n = source.len();
    let mut i: usize = start;
    while i < n
        invariant
            source.wf(),
            target.wf(),
            start <= i <= n,
            n == source.ids().len(),
            forall|v: u64|
                target@.contains_key(v) <==> old(target)@.contains_key(v) || exists|j: int|
                    start <= j < i && source.ids()[j] == v,
        decreases n - i,
    {
        let id = source.id_at(i);
        let ghost before = *target;
        target.insert(id, ());
        proof {
            assert forall|v: u64|
                target@.contains_key(v) <==> old(target)@.contains_key(v) || exists|j: int|
                    start <= j < i + 1 && source.ids()[j] == v by {
                if target@.contains_key(v) && !old(target)@.contains_key(v) {
                    if v == id {
                        assert(source.ids()[i as int] == v);
                    } else {
                        assert(before@.contains_key(v));
                        let j = choose|j: int| start <= j < i && source.ids()[j] == v;
                        assert(start <= j < i + 1 && source.ids()[j] == v);
                    }
                }
                if exists|j: int| start <= j < i + 1 && source.ids()[j] == v {
                    let j = choose|j: int| start <= j < i + 1 && source.ids()[j] == v;
                    if j < i {
                        assert(before@.contains_key(v));
                    }
                }
            }
        }
        i += 1;
    }
}

impl VsBackend {
    /// The identifier of the branch called `name`.
    pub fn branch_get_id_by_name(&self, name: &[u8]) -> (r: Option<u64>)
        requires
            self.wf(),
        ensures
            r == (if self@.br_name_to_id.contains_key(name@) {
                Some(self@.br_name_to_id[name@])
            } else {
                None
            }),
            r is Some ==> self@.br_to_vers.contains_key(r->0),
    {
        match self.br_name_to_id.get(name) {
            Some(id) => {
                proof {
                    assert(self@.br_id_to_name.contains_key(*id));
                }
                Some(*id)
            },
            None => None,
        }
    }

    /// Whether a branch has this identifier.
    pub fn branch_exists(&self, br: u64) -> (b: bool)
        requires
            self.wf(),
        ensures
            b == self@.branch_exists(br),
    {
        self.br_id_to_name.contains_key(br)
    }

    /// Whether the branch exists and sees at least one version.
    pub fn branch_has_versions(&self, br: u64) -> (b: bool)
        requires
            self.wf(),
        ensures
            b == self@.branch_has_versions(br),
    {
        self.branch_exists(br) && self.head_of(br).is_some()
    }

    /// Makes `br` the default branch.
    pub fn branch_set_default(&mut self, br: u64) -> (r: Result<(), VsError>)
        requires
            old(self).wf(),
        ensures
            final(self).wf(),
            match old(self)@.branch_set_default(br) {
                Ok(s) => final(self)@ == s && r is Ok,
                Err(e) => final(self)@ == old(self)@ && r == Err::<(), VsError>(e),
            },
    {
        if !self.br_id_to_name.contains_key(br) {
            return Err(VsError::BranchNotFound);
        }
        self.default_branch = br;
        Ok(())
    }

    /// The name of the default branch.
    pub fn branch_get_default_name(&self) -> (name: BranchNameOwned)
        requires
            self.wf(),
            self@.branch_exists(self@.default_branch),
        ensures
            name.0@ == self@.br_id_to_name[self@.default_branch],
    {
        let name = self.br_id_to_name.get(self.default_branch).unwrap();
        BranchNameOwned(name.clone())
    }

    /// The names of all branches in lexicographic order.
    pub fn branch_list(&self) -> (names: Vec<BranchNameOwned>)
        requires
            self.wf(),
        ensures
            branch_names_view(names@) == self@.branch_list(),
    {
        let mut names: Vec<BranchNameOwned> = Vec::new();
        let n = self.br_name_to_id.len();
        let mut i: usize = 0;
        while i < n
            invariant
                self.br_name_to_id.wf(),
                n == self.br_name_to_id.keys().len(),
                i <= n,
                names@.len() == i,
                forall|j: int| 0 <= j < i ==> names@[j].0@ == self.br_name_to_id.keys()[j],
            decreases n - i,
        {
            let name = self.br_name_to_id.key_at(i);
            names.push(BranchNameOwned(name.clone()));
            i += 1;
        }
        proof {
            assert(branch_names_view(names@) =~= self@.branch_list());
        }
        names
    }

    /// Whether nothing was written at any version of the branch.
    pub fn branch_is_empty(&self, br: u64) -> (r: Result<bool, VsError>)
        requires
            self.wf(),
        ensures
            r == self@.branch_is_empty(br),
    {
        let vers = match self.br_to_vers.get(br) {
            Some(vers) => vers,
            None => {
                return Err(VsError::BranchNotFound);
            },
        };
        proof {
            vers.lemma_ids();
            assert(self@.br_to_vers[br] == vers@.dom());
        }
        let n = vers.len();
        let mut i: usize = 0;
        while i < n
            invariant
                self.wf(),
                vers.wf(),
                self@.br_to_vers.contains_key(br),
                self@.br_to_vers[br] == vers@.dom(),
                lists_ids(vers.ids(), vers@.dom()),
                n == vers.ids().len(),
                i <= n,
                forall|j: int, k: Seq<u8>|
                    0 <= j < i ==> !(#[trigger] self@.ver_to_chgset[vers.ids()[j]].contains(k)),
            decreases n - i,
        {
            let v = vers.id_at(i);
            proof {
                assert(vers.ids().contains(v));
                assert(self@.br_to_vers[br].contains(v));
                assert(self@.ver_to_chgset.contains_key(v));
            }
            let chgset = self.ver_to_chgset.get(v).unwrap();
            proof {
                chgset.lemma_keys();
            }
            if !chgset.is_empty() {
                proof {
                    let k = chgset.keys()[0];
                    assert(chgset.keys().contains(k));
                    assert(self@.ver_to_chgset[v].contains(k));
                }
                return Ok(false);
            }
            proof {
                assert forall|k: Seq<u8>| !self@.ver_to_chgset[v].contains(k) by {
                    if self@.ver_to_chgset[v].contains(k) {
                        assert(chgset.keys().contains(k));
                    }
                }
            }
            i += 1;
        }
        proof {
            assert forall|v: u64, k: Seq<u8>|
                self@.br_to_vers[br].contains(v) && self@.ver_to_chgset.contains_key(v) implies !(
                #[trigger] self@.ver_to_chgset[v].contains(k)) by {
                assert(vers.ids().contains(v));
                let j = choose|j: int| 0 <= j < n && vers.ids()[j] == v;
                assert(!self@.ver_to_chgset[vers.ids()[j]].contains(k));
            }
        }
        Ok(true)
    }

    /// Branch `br` sees no version any more.
    pub fn branch_truncate(&mut self, br: u64) -> (r: Result<(), VsError>)
        requires
            old(self).wf(),
        ensures
            final(self).wf(),
            match old(self)@.branch_truncate(br) {
                Ok(s) => final(self)@ == s && r is Ok,
                Err(e) => final(self)@ == old(self)@ && r == Err::<(), VsError>(e),
            },
    {
        let at = match self.br_to_vers.position(br) {
            Some(at) => at,
            None => {
                return Err(VsError::BranchNotFound);
            },
        };
        let ghost before = *self;
        self.br_to_vers.replace_at(at, IdMap::new());
        proof {
            lemma_branch_truncate_inv(before@, br);
            let want = before@.branch_truncate(br)->Ok_0;
            assert(self@.br_to_vers =~= want.br_to_vers);
            assert(self@ =~= want);
        }
        Ok(())
    }

    /// Removes branch `br`: its name is free again and nothing is seen
    /// through it. The versions that it saw stay recorded.
    pub fn branch_remove(&mut self, br: u64) -> (r: Result<(), VsError>)
        requires
            old(self).wf(),
        ensures
            final(self).wf(),
            match old(self)@.branch_remove(br) {
                Ok(s) => final(self)@ == s && r is Ok,
                Err(e) => final(self)@ == old(self)@ && r == Err::<(), VsError>(e),
            },
    {
        if !self.br_to_vers.contains_key(br) {
            return Err(VsError::BranchNotFound);
        }
        let ghost before = *self;
        proof {
            assert(before@.br_id_to_name.contains_key(br));
            lemma_without_branch_inv(before@, br);
        }
        let name = self.br_id_to_name.remove(br).unwrap();
        self.br_name_to_id.remove(name.as_slice());
        self.br_to_vers.remove(br);
        proof {
            let want = before@.without_branch(br);
            assert(self@.br_to_vers =~= want.br_to_vers);
            assert(self@.br_id_to_name =~= want.br_id_to_name);
            assert(self@.br_name_to_id =~= want.br_name_to_id);
            assert(self@ =~= want);
        }
        Ok(())
    }

    /// Branch `br` no longer sees the versions newer than `last`.
    pub fn branch_truncate_to(&mut self, br: u64, last: u64) -> (r: Result<(), VsError>)
        requires
            old(self).wf(),
        ensures
            final(self).wf(),
            match old(self)@.branch_truncate_to(br, last) {
                Ok(s) => final(self)@ == s && r is Ok,
                Err(e) => final(self)@ == old(self)@ && r == Err::<(), VsError>(e),
            },
    {
        let at = match self.br_to_vers.position(br) {
            Some(at) => at,
            None => {
                return Err(VsError::BranchNotFound);
            },
        };
        let ghost before = *self;
        let mut vers = self.br_to_vers.replace_at(at, IdMap::new());
        let ghost old_vers = vers;
        let n = vers.count_upto(last);
        vers.truncate(n);
        proof {
            old_vers.lemma_ids();
            vers.lemma_ids();
            assert forall|v: u64| vers@.dom().contains(v) <==> upto(old_vers@.dom(), last).contains(
                v,
            ) by {
                if vers@.dom().contains(v) {
                    assert(vers.ids().contains(v));
                    let j = choose|j: int| 0 <= j < vers.ids().len() && vers.ids()[j] == v;
                    assert(old_vers.ids()[j] == v);
                }
                if upto(old_vers@.dom(), last).contains(v) {
                    assert(old_vers.ids().contains(v));
                    let j = choose|j: int| 0 <= j < old_vers.ids().len() && old_vers.ids()[j] == v;
                    assert(j < n);
                    assert(vers.ids()[j] == v);
                    assert(vers.ids().contains(v));
                }
            }
            assert(vers@.dom() =~= upto(old_vers@.dom(), last));
        }
        self.br_to_vers.replace_at(at, vers);
        proof {
            lemma_branch_truncate_to_inv(before@, br, last);
            let want = before@.branch_truncate_to(br, last)->Ok_0;
            assert(self@.br_to_vers =~= want.br_to_vers);
            assert(self@ =~= want);
        }
        Ok(())
    }

    /// Branch `br` no longer sees its newest version, if it has one.
    pub fn branch_pop_version(&mut self, br: u64) -> (r: Result<(), VsError>)
        requires
            old(self).wf(),
        ensures
            final(self).wf(),
            match old(self)@.branch_pop_version(br) {
                Ok(s) => final(self)@ == s && r is Ok,
                Err(e) => final(self)@ == old(self)@ && r == Err::<(), VsError>(e),
            },
    {
        let at = match self.br_to_vers.position(br) {
            Some(at) => at,
            None => {
                return Err(VsError::BranchNotFound);
            },
        };
        let ghost before = *self;
        match self.head_of(br) {
            Some(h) => {
                let mut vers = self.br_to_vers.replace_at(at, IdMap::new());
                vers.remove(h);
                self.br_to_vers.replace_at(at, vers);
                proof {
                    lemma_branch_pop_version_inv(before@, br);
                    let want = before@.branch_pop_version(br)->Ok_0;
                    assert(self@.br_to_vers[br] =~= want.br_to_vers[br]);
                    assert(self@.br_to_vers =~= want.br_to_vers);
                    assert(self@ =~= want);
                }
            },
            None => {},
        }
        Ok(())
    }

    /// Removes the newest version of branch `br` from the branch.
    pub fn version_pop_by_branch(&mut self, br: u64) -> (r: Result<(), VsError>)
        requires
            old(self).wf(),
        ensures
            final(self).wf(),
            match old(self)@.branch_pop_version(br) {
                Ok(s) => final(self)@ == s && r is Ok,
                Err(e) => final(self)@ == old(self)@ && r == Err::<(), VsError>(e),
            },
    {
        self.branch_pop_version(br)
    }

    /// Removes the newest version of the default branch from the branch.
    pub fn version_pop(&mut self) -> (r: Result<(), VsError>)
        requires
            old(self).wf(),
        ensures
            final(self).wf(),
            match old(self)@.branch_pop_version(old(self)@.default_branch) {
                Ok(s) => final(self)@ == s && r is Ok,
                Err(e) => final(self)@ == old(self)@ && r == Err::<(), VsError>(e),
            },
    {
        let br = self.default_branch;
        self.branch_pop_version(br)
    }

    /// The branches named `n1` and `n2` trade names.
    pub fn branch_swap(&mut self, n1: &[u8], n2: &[u8]) -> (r: Result<(), VsError>)
        requires
            old(self).wf(),
        ensures
            final(self).wf(),
            match old(self)@.branch_swap(n1@, n2@) {
                Ok(s) => final(self)@ == s && r is Ok,
                Err(e) => final(self)@ == old(self)@ && r == Err::<(), VsError>(e),
            },
    {
        let i1 = match self.branch_get_id_by_name(n1) {
            Some(id) => id,
            None => {
                return Err(VsError::BranchNotFound);
            },
        };
        let i2 = match self.branch_get_id_by_name(n2) {
            Some(id) => id,
            None => {
                return Err(VsError::BranchNotFound);
            },
        };
        let ghost before = *self;
        self.br_name_to_id.insert(n1, i2);
        self.br_name_to_id.insert(n2, i1);
        self.br_id_to_name.insert(i1, vstd::slice::slice_to_vec(n2));
        self.br_id_to_name.insert(i2, vstd::slice::slice_to_vec(n1));
        if self.default_branch == i1 {
            self.default_branch = i2;
        } else if self.default_branch == i2 {
            self.default_branch = i1;
        }
        proof {
            lemma_branch_swap_inv(before@, n1@, n2@);
            let want = before@.branch_swap(n1@, n2@)->Ok_0;
            assert(self@.br_id_to_name =~= want.br_id_to_name);
            assert(self@ =~= want);
        }
        Ok(())
    }

    /// Branch `dst` comes to see every version that branch `src` sees. This
    /// is refused where `dst` has a newest version that `src` does not see.
    pub fn branch_merge_to(&mut self, src: u64, dst: u64) -> (r: Result<(), VsError>)
        requires
            old(self).wf(),
        ensures
            final(self).wf(),
            match old(self)@.branch_merge(src, dst, false) {
                Ok(s) => final(self)@ == s && r is Ok,
                Err(e) => final(self)@ == old(self)@ && r == Err::<(), VsError>(e),
            },
    {
        self.do_branch_merge_to(src, dst, false)
    }

    /// Branch `dst` comes to see every version that branch `src` sees, even
    /// where `dst` has versions of its own.
    pub fn branch_merge_to_force(&mut self, src: u64, dst: u64) -> (r: Result<(), VsError>)
        requires
            old(self).wf(),
        ensures
            final(self).wf(),
            match old(self)@.branch_merge(src, dst, true) {
                Ok(s) => final(self)@ == s && r is Ok,
                Err(e) => final(self)@ == old(self)@ && r == Err::<(), VsError>(e),
            },
    {
        self.do_branch_merge_to(src, dst, true)
    }

    /// Merges `src` into `dst`. The versions that the two branches share at
    /// the start of their orders are skipped: from the first position at
    /// which the two differ, or from the end of `dst`, the versions of `src`
    /// are put into `dst`.
    fn do_branch_merge_to(&mut self, src: u64, dst: u64, force: bool) -> (r: Result<(), VsError>)
        requires
            old(self).wf(),
        ensures
            final(self).wf(),
            match old(self)@.branch_merge(src, dst, force) {
                Ok(s) => final(self)@ == s && r is Ok,
                Err(e) => final(self)@ == old(self)@ && r == Err::<(), VsError>(e),
            },
    {
        if !self.br_to_vers.contains_key(src) {
            return Err(VsError::BranchNotFound);
        }
        let at = match self.br_to_vers.position(dst) {
            Some(at) => at,
            None => {
                return Err(VsError::TargetBranchNotFound);
            },
        };
        let ghost before = *self;
        proof {
            lemma_head(before@.br_to_vers[dst]);
        }
        if !force {
            match self.head_of(dst) {
                Some(h) => {
                    if !self.br_to_vers.get(src).unwrap().contains_key(h) {
                        return Err(VsError::UnsafeMerge);
                    }
                },
                None => {},
            }
        }
        if src == dst {
            proof {
                let want = before@.branch_merge(src, dst, force)->Ok_0;
                assert(want.br_to_vers[dst] =~= before@.br_to_vers[dst]);
                assert(want.br_to_vers =~= before@.br_to_vers);
                assert(want =~= before@);
            }
            return Ok(());
        }
        let mut target = self.br_to_vers.replace_at(at, IdMap::new());
        let ghost old_target = target;
        let vers = self.br_to_vers.get(src).unwrap();
        proof {
            vers.lemma_ids();
            target.lemma_ids();
            assert(vers == before.br_to_vers@[src]);
        }
        let n_src = vers.len();
        let n_dst = target.len();
        let n = if n_src < n_dst {
            n_src
        } else {
            n_dst
        };
        let mut fork: usize = 0;
        while fork < n && vers.id_at(fork) == target.id_at(fork)
            invariant
                vers.wf(),
                target.wf(),
                fork <= n,
                n <= vers.ids().len(),
                n <= target.ids().len(),
                forall|j: int| 0 <= j < fork ==> vers.ids()[j] == target.ids()[j],
            decreases n - fork,
        {
            fork += 1;
        }
        let start: usize = if fork < n {
            fork
        } else if n_src > 0 && n_dst > 0 {
            let newest = vers.id_at(n_src - 1);
            let target_newest = target.id_at(n_dst - 1);
            if newest > target_newest {
                vers.count_upto(target_newest)
            } else {
                n_src
            }
        } else {
            0
        };
        proof {
            // every version of the source that is skipped is one that the
            // target sees already
            assert forall|j: int| 0 <= j < start implies old_target@.contains_key(
                #[trigger] vers.ids()[j],
            ) by {
                if fork < n {
                    assert(target.ids().contains(target.ids()[j]));
                } else if n_src > 0 && n_dst > 0 {
                    if n_src <= n_dst {
                        assert(target.ids().contains(target.ids()[j]));
                    } else {
                        assert(vers.ids()[n_dst - 1] == target.ids()[n_dst - 1]);
                        if j >= n_dst {
                            assert(vers.ids()[n_dst - 1] < vers.ids()[j]);
                        } else {
                            assert(target.ids().contains(target.ids()[j]));
                        }
                    }
                }
            }
        }
        copy_from(&mut target, vers, start);
        proof {
            assert forall|v: u64| target@.dom().contains(v) <==> old_target@.dom().union(
                vers@.dom(),
            ).contains(v) by {
                if vers@.dom().contains(v) {
                    assert(vers.ids().contains(v));
                    let j = choose|j: int| 0 <= j < vers.ids().len() && vers.ids()[j] == v;
                    if j < start {
                        assert(old_target@.contains_key(vers.ids()[j]));
                    }
                }
                if target@.dom().contains(v) && !old_target@.dom().contains(v) {
                    let j = choose|j: int| start <= j < vers.ids().len() && vers.ids()[j] == v;
                    assert(vers.ids().contains(v));
                }
            }
            assert(target@.dom() =~= old_target@.dom().union(vers@.dom()));
        }
        self.br_to_vers.replace_at(at, target);
        proof {
            lemma_branch_merge_inv(before@, src, dst, force);
            let want = before@.branch_merge(src, dst, force)->Ok_0;
            assert(self@.br_to_vers =~= want.br_to_vers);
            assert(self@ =~= want);
        }
        Ok(())
    }

    /// Creates a branch; see `VsState::branch_new`.
    fn do_branch_create_by_base_branch_version(
        &mut self,
        name: &[u8],
        first_ver: Option<&[u8]>,
        base_br: u64,
        base_ver: Option<u64>,
        force: bool,
    ) -> (r: Result<(), VsError>)
        requires
            old(self).wf(),
        ensures
            final(self).wf(),
            match old(self)@.branch_new(name@, super::slice_opt(first_ver), base_br, base_ver, force) {
                Ok(s) => final(self)@ == s && r is Ok,
                Err(e) => final(self)@ == old(self)@ && r == Err::<(), VsError>(e),
            },
    {
        let ghost before = *self;
        let ghost cleared = before@.cleared_for(name@, force);
        if let Some(vn) = first_ver {
            if self.ver_name_to_id.contains_key(vn) {
                return Err(VsError::VersionAlreadyExists);
            }
        }
        let existing = self.branch_get_id_by_name(name);
        if existing.is_some() && !force {
            return Err(VsError::BranchAlreadyExists);
        }
        proof {
            lemma_cleared_for_inv(before@, name@, force);
        }
        if !self.br_to_vers.contains_key(base_br) || existing == Some(base_br) {
            return Err(VsError::BaseBranchNotFound);
        }
        if let Some(bv) = base_ver {
            if !self.br_to_vers.get(base_br).unwrap().contains_key(bv) {
                return Err(VsError::VersionOnWrongBranch);
            }
        }
        if self.next_br_id == u64::MAX || (first_ver.is_some() && self.next_ver_id == u64::MAX) {
            return Err(VsError::IdSpaceExhausted);
        }
        if let Some(replaced) = existing {
            let removed = self.branch_remove(replaced);
            assert(removed is Ok);
        }
        assert(self@ == cleared);
        let seen: IdSet = match base_ver {
            Some(bv) => copy_upto(self.br_to_vers.get(base_br).unwrap(), bv),
            None => IdMap::new(),
        };
        let ghost seen_set = seen@.dom();
        proof {
            assert forall|v: u64| seen_set.contains(v) implies cleared.ver_to_chgset.contains_key(
                v,
            ) by {
                assert(cleared.br_to_vers[base_br].contains(v));
            }
            lemma_with_new_branch_inv(cleared, name@, seen_set);
        }
        let id = self.next_br_id;
        self.next_br_id = id + 1;
        self.br_name_to_id.insert(name, id);
        self.br_id_to_name.insert(id, vstd::slice::slice_to_vec(name));
        self.br_to_vers.insert(id, seen);
        proof {
            let want = cleared.with_new_branch(name@, seen_set);
            assert(self@.br_to_vers =~= want.br_to_vers);
            assert(self@.br_id_to_name =~= want.br_id_to_name);
            assert(self@ =~= want);
        }
        match first_ver {
            Some(vn) => self.version_create_by_branch(vn, id),
            None => Ok(()),
        }
    }

    /// Creates the branch `name` from the newest version of `base_br`; see
    /// `VsState::branch_new_at_head`.
    fn do_branch_create_by_base_branch(
        &mut self,
        name: &[u8],
        first_ver: Option<&[u8]>,
        base_br: u64,
        force: bool,
    ) -> (r: Result<(), VsError>)
        requires
            old(self).wf(),
        ensures
            final(self).wf(),
            match old(self)@.branch_new_at_head(name@, super::slice_opt(first_ver), base_br, force) {
                Ok(s) => final(self)@ == s && r is Ok,
                Err(e) => final(self)@ == old(self)@ && r == Err::<(), VsError>(e),
            },
    {
        if let Some(vn) = first_ver {
            if self.ver_name_to_id.contains_key(vn) {
                return Err(VsError::VersionAlreadyExists);
            }
        }
        if !self.br_to_vers.contains_key(base_br) {
            return Err(VsError::BaseBranchNotFound);
        }
        let base_ver = self.head_of(base_br);
        self.do_branch_create_by_base_branch_version(name, first_ver, base_br, base_ver, force)
    }

    /// Creates the branch `name`, with a first version `ver_name`, from the
    /// newest version of the default branch.
    pub fn branch_create(&mut self, name: &[u8], ver_name: &[u8], force: bool) -> (r: Result<
        (),
        VsError,
    >)
        requires
            old(self).wf(),
        ensures
            final(self).wf(),
            match old(self)@.branch_new_at_head(
                name@,
                Some(ver_name@),
                old(self)@.default_branch,
                force,
            ) {
                Ok(s) => final(self)@ == s && r is Ok,
                Err(e) => final(self)@ == old(self)@ && r == Err::<(), VsError>(e),
            },
    {
        let base = self.default_branch;
        self.do_branch_create_by_base_branch(name, Some(ver_name), base, force)
    }

    /// Creates the branch `name`, with a first version `ver_name`, from the
    /// newest version of branch `base_br`.
    pub fn branch_create_by_base_branch(
        &mut self,
        name: &[u8],
        ver_name: &[u8],
        base_br: u64,
        force: bool,
    ) -> (r: Result<(), VsError>)
        requires
            old(self).wf(),
        ensures
            final(self).wf(),
            match old(self)@.branch_new_at_head(name@, Some(ver_name@), base_br, force) {
                Ok(s) => final(self)@ == s && r is Ok,
                Err(e) => final(self)@ == old(self)@ && r == Err::<(), VsError>(e),
            },
    {
        self.do_branch_create_by_base_branch(name, Some(ver_name), base_br, force)
    }

    /// Creates the branch `name`, with a first version `ver_name`, from
    /// version `base_ver` of branch `base_br`.
    pub fn branch_create_by_base_branch_version(
        &mut self,
        name: &[u8],
        ver_name: &[u8],
        base_br: u64,
        base_ver: u64,
        force: bool,
    ) -> (r: Result<(), VsError>)
        requires
            old(self).wf(),
        ensures
            final(self).wf(),
            match old(self)@.branch_new(name@, Some(ver_name@), base_br, Some(base_ver), force) {
                Ok(s) => final(self)@ == s && r is Ok,
                Err(e) => final(self)@ == old(self)@ && r == Err::<(), VsError>(e),
            },
    {
        self.do_branch_create_by_base_branch_version(
            name,
            Some(ver_name),
            base_br,
            Some(base_ver),
            force,
        )
    }

    /// Creates the branch `name` from the newest version of the default
    /// branch, without a version of its own. A write to the new branch then
    /// goes to a version that the base branch sees too, until a version is
    /// created on the new branch.
    pub fn branch_create_without_new_version(&mut self, name: &[u8], force: bool) -> (r: Result<
        (),
        VsError,
    >)
        requires
            old(self).wf(),
        ensures
            final(self).wf(),
            match old(self)@.branch_new_at_head(name@, None, old(self)@.default_branch, force) {
                Ok(s) => final(self)@ == s && r is Ok,
                Err(e) => final(self)@ == old(self)@ && r == Err::<(), VsError>(e),
            },
    {
        let base = self.default_branch;
        self.do_branch_create_by_base_branch(name, None, base, force)
    }

    /// Creates the branch `name` from the newest version of branch
    /// `base_br`, without a version of its own.
    pub fn branch_create_by_base_branch_without_new_version(
        &mut self,
        name: &[u8],
        base_br: u64,
        force: bool,
    ) -> (r: Result<(), VsError>)
        requires
            old(self).wf(),
        ensures
            final(self).wf(),
            match old(self)@.branch_new_at_head(name@, None, base_br, force) {
                Ok(s) => final(self)@ == s && r is Ok,
                Err(e) => final(self)@ == old(self)@ && r == Err::<(), VsError>(e),
            },
    {
        self.do_branch_create_by_base_branch(name, None, base_br, force)
    }

    /// Creates the branch `name` from version `base_ver` of branch
    /// `base_br`, without a version of its own.
    pub fn branch_create_by_base_branch_version_without_new_version(
        &mut self,
        name: &[u8],
        base_br: u64,
        base_ver: u64,
        force: bool,
    ) -> (r: Result<(), VsError>)
        requires
            old(self).wf(),
        ensures
            final(self).wf(),
            match old(self)@.branch_new(name@, None, base_br, Some(base_ver), force) {
                Ok(s) => final(self)@ == s && r is Ok,
                Err(e) => final(self)@ == old(self)@ && r == Err::<(), VsError>(e),
            },
    {
        self.do_branch_create_by_base_branch_version(name, None, base_br, Some(base_ver), force)
    }
}

} // verus!
