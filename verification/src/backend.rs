//! The versioned map over branch and version identifiers: the stored
//! indices and the operations on them.

use crate::common::{VsError, INITIAL_BRANCH_ID, NULL_ID};
use crate::idmap::{IdMap, IdSet};
use crate::keymap::{KeyMap, KeySet};
use crate::model::{head, lemma_latest_upto, lemma_latest_upto_is, read, VsState};
use crate::validity::{lemma_head, lemma_initial_inv, lemma_version_create_inv, lemma_write_inv};
use vstd::prelude::*;

pub mod branches;
pub mod fold;
pub mod prune;
pub mod restore;
pub mod scan;
pub mod upkeep;
pub mod versions;

verus! {

/// The byte strings that a map of owned byte strings holds.
pub open spec fn names_view(m: Map<u64, Vec<u8>>) -> Map<u64, Seq<u8>> {
    Map::new(|i: u64| m.contains_key(i), |i: u64| m[i]@)
}

/// The sets that a map of ordered identifier sets holds.
pub open spec fn id_sets_view(m: Map<u64, IdSet>) -> Map<u64, Set<u64>> {
    Map::new(|i: u64| m.contains_key(i), |i: u64| m[i]@.dom())
}

/// The sets that a map of ordered key sets holds.
pub open spec fn key_sets_view(m: Map<u64, KeySet>) -> Map<u64, Set<Seq<u8>>> {
    Map::new(|i: u64| m.contains_key(i), |i: u64| m[i]@.dom())
}

/// The history of one key as a map from version to bytes.
pub open spec fn history_view(h: IdMap<Vec<u8>>) -> Map<u64, Seq<u8>> {
    Map::new(|v: u64| h@.contains_key(v), |v: u64| h@[v]@)
}

/// The histories of all keys.
pub open spec fn layers_view(m: Map<Seq<u8>, IdMap<Vec<u8>>>) -> Map<
    Seq<u8>,
    Map<u64, Seq<u8>>,
> {
    Map::new(|k: Seq<u8>| m.contains_key(k), |k: Seq<u8>| history_view(m[k]))
}

/// The bytes of an optional owned value.
pub open spec fn bytes_opt(o: Option<Vec<u8>>) -> Option<Seq<u8>> {
    match o {
        Some(b) => Some(b@),
        None => None,
    }
}

/// The bytes of an optional borrowed value.
pub open spec fn slice_opt(o: Option<&[u8]>) -> Option<Seq<u8>> {
    match o {
        Some(b) => Some(b@),
        None => None,
    }
}

/// A versioned map addressed by branch and version identifiers.
#[derive(Clone, Debug)]
pub struct VsBackend {
    default_branch: u64,
    br_name_to_id: KeyMap<u64>,
    ver_name_to_id: KeyMap<u64>,
    br_id_to_name: IdMap<Vec<u8>>,
    ver_id_to_name: IdMap<Vec<u8>>,
    br_to_vers: IdMap<IdSet>,
    ver_to_chgset: IdMap<KeySet>,
    lkv: KeyMap<IdMap<Vec<u8>>>,
    next_br_id: u64,
    next_ver_id: u64,
}

impl View for VsBackend {
    type V = VsState;

    closed spec fn view(&self) -> VsState {
        VsState {
            default_branch: self.default_branch,
            br_name_to_id: self.br_name_to_id@,
            br_id_to_name: names_view(self.br_id_to_name@),
            ver_name_to_id: self.ver_name_to_id@,
            ver_id_to_name: names_view(self.ver_id_to_name@),
            br_to_vers: id_sets_view(self.br_to_vers@),
            ver_to_chgset: key_sets_view(self.ver_to_chgset@),
            lkv: layers_view(self.lkv@),
            next_br_id: self.next_br_id,
            next_ver_id: self.next_ver_id,
        }
    }
}

impl VsBackend {
    /// The stored collections are in order.
    pub closed spec fn stored(&self) -> bool {
        &&& self.br_name_to_id.wf()
        &&& self.ver_name_to_id.wf()
        &&& self.br_id_to_name.wf()
        &&& self.ver_id_to_name.wf()
        &&& self.br_to_vers.wf()
        &&& self.ver_to_chgset.wf()
        &&& self.lkv.wf()
        &&& forall|b: u64| #[trigger]
            self.br_to_vers@.contains_key(b) ==> self.br_to_vers@[b].wf()
        &&& forall|v: u64| #[trigger]
            self.ver_to_chgset@.contains_key(v) ==> self.ver_to_chgset@[v].wf()
        &&& forall|k: Seq<u8>| #[trigger] self.lkv@.contains_key(k) ==> self.lkv@[k].wf()
    }

    /// The map is well formed: its collections are in order and its state is
    /// valid.
    pub closed spec fn wf(&self) -> bool {
        &&& self.stored()
        &&& self@.inv()
    }

    /// A well-formed map is in a valid state.
    pub proof fn lemma_wf(&self)
        requires
            self.wf(),
        ensures
            self@.inv(),
    {
    }

    /// A new map with the initial branch and nothing else.
    pub fn new() -> (m: Self)
        ensures
            m.wf(),
            m@ == VsState::initial(),
    {
        let mut m = VsBackend {
            default_branch: INITIAL_BRANCH_ID,
            br_name_to_id: KeyMap::new(),
            ver_name_to_id: KeyMap::new(),
            br_id_to_name: IdMap::new(),
            ver_id_to_name: IdMap::new(),
            br_to_vers: IdMap::new(),
            ver_to_chgset: IdMap::new(),
            lkv: KeyMap::new(),
            next_br_id: INITIAL_BRANCH_ID + 1,
            next_ver_id: NULL_ID + 1,
        };
        let name = crate::common::initial_branch_name_bytes();
        m.br_name_to_id.insert(name.as_slice(), INITIAL_BRANCH_ID);
        m.br_id_to_name.insert(INITIAL_BRANCH_ID, name);
        m.br_to_vers.insert(INITIAL_BRANCH_ID, IdMap::new());
        proof {
            assert(m@ =~= VsState::initial());
            lemma_initial_inv();
        }
        m
    }

    /// The identifier of the default branch.
    pub fn branch_get_default(&self) -> (br: u64)
        ensures
            br == self@.default_branch,
    {
        self.default_branch
    }

    /// The value of `key` as of version `ver`, read through branch `br`.
    pub fn get_by_branch_version(&self, key: &[u8], br: u64, ver: u64) -> (r: Option<Vec<u8>>)
        requires
            self.wf(),
        ensures
            bytes_opt(r) == self@.get_by_branch_version(key@, br, ver),
    {
        let vers = match self.br_to_vers.get(br) {
            Some(vers) => vers,
            None => {
                return None;
            },
        };
        let hist = match self.lkv.get(key) {
            Some(hist) => hist,
            None => {
                proof {
                    let seen = self@.history(key@).dom().intersect(self@.br_to_vers[br]);
                    lemma_latest_upto(seen, ver);
                }
                return None;
            },
        };
        let ghost seen = history_view(*hist).dom().intersect(vers@.dom());
        proof {
            hist.lemma_ids();
            assert(self@.history(key@) == history_view(*hist));
            assert(self@.br_to_vers[br] == vers@.dom());
        }
        let mut i: usize = hist.count_upto(ver);
        while i > 0
            invariant
                hist.wf(),
                vers.wf(),
                i <= hist.ids().len(),
                crate::order::lists_ids(hist.ids(), hist@.dom()),
                seen == history_view(*hist).dom().intersect(vers@.dom()),
                self@.get_by_branch_version(key@, br, ver) == read(
                    history_view(*hist),
                    vers@.dom(),
                    ver,
                ),
                forall|j: int| 0 <= j < i ==> hist.ids()[j] <= ver,
                forall|j: int| i <= j < hist.ids().len() ==> !seen.contains(hist.ids()[j])
                    || hist.ids()[j] > ver,
            decreases i,
        {
            i -= 1;
            let v = hist.id_at(i);
            if vers.contains_key(v) {
                let value = hist.value_at(i);
                proof {
                    assert forall|u: u64| seen.contains(u) && u <= ver implies u <= v by {
                        assert(hist.ids().contains(u));
                        let j = choose|j: int| 0 <= j < hist.ids().len() && hist.ids()[j] == u;
                        if j > i {
                            assert(!seen.contains(hist.ids()[j]) || hist.ids()[j] > ver);
                        }
                    }
                    lemma_latest_upto_is(seen, ver, v);
                }
                if value.len() == 0 {
                    return None;
                } else {
                    return Some(value.clone());
                }
            }
        }
        proof {
            lemma_latest_upto(seen, ver);
            if let Some(w) = crate::model::latest_upto(seen, ver) {
                assert(hist.ids().contains(w));
                let j = choose|j: int| 0 <= j < hist.ids().len() && hist.ids()[j] == w;
                assert(!seen.contains(hist.ids()[j]) || hist.ids()[j] > ver);
            }
        }
        None
    }

    /// The newest version of branch `br`.
    pub fn head_of(&self, br: u64) -> (r: Option<u64>)
        requires
            self.wf(),
        ensures
            r == self@.head_of(br),
    {
        match self.br_to_vers.get(br) {
            Some(vers) => {
                let r = vers.last_id();
                proof {
                    vers.lemma_ids();
                    lemma_head(vers@.dom());
                    match r {
                        Some(h) => {
                            let n = vers.ids().len();
                            assert(vers.ids().contains(vers.ids()[n - 1]));
                            assert forall|u: u64| vers@.dom().contains(u) implies u <= h by {
                                assert(vers.ids().contains(u));
                                let j = choose|j: int| 0 <= j < n && vers.ids()[j] == u;
                            }
                        },
                        None => {
                            if let Some(w) = head(vers@.dom()) {
                                assert(vers.ids().contains(w));
                            }
                        },
                    }
                }
                r
            },
            None => None,
        }
    }

    /// The value of `key` at the newest version of branch `br`.
    pub fn get_by_branch(&self, key: &[u8], br: u64) -> (r: Option<Vec<u8>>)
        requires
            self.wf(),
        ensures
            bytes_opt(r) == self@.get_by_branch(key@, br),
    {
        match self.head_of(br) {
            Some(h) => self.get_by_branch_version(key, br, h),
            None => None,
        }
    }

    /// The value of `key` at the newest version of the default branch.
    pub fn get(&self, key: &[u8]) -> (r: Option<Vec<u8>>)
        requires
            self.wf(),
        ensures
            bytes_opt(r) == self@.get(key@),
    {
        self.get_by_branch(key, self.default_branch)
    }

    /// Writes `value`, or a deletion, to `key` at version `ver` of branch
    /// `br`, and hands back what a read found before.
    fn write_by_branch_version(
        &mut self,
        key: &[u8],
        value: Option<&[u8]>,
        br: u64,
        ver: u64,
    ) -> (r: Option<Vec<u8>>)
        requires
            old(self).wf(),
            old(self)@.version_exists_on_branch(ver, br),
        ensures
            final(self).wf(),
            (final(self)@, bytes_opt(r)) == old(self)@.write(key@, slice_opt(value), br, ver),
    {
        let prev = self.get_by_branch_version(key, br, ver);
        if value.is_none() && prev.is_none() {
            return prev;
        }
        let ghost before = *self;
        proof {
            lemma_write_inv(before@, key@, slice_opt(value), br, ver);
            assert(before@.ver_to_chgset.contains_key(ver));
        }
        let at = self.ver_to_chgset.position(ver).unwrap();
        let mut chgset = self.ver_to_chgset.replace_at(at, KeyMap::new());
        chgset.insert(key, ());
        self.ver_to_chgset.replace_at(at, chgset);

        let bytes: Vec<u8> = match value {
            Some(b) => vstd::slice::slice_to_vec(b),
            None => Vec::new(),
        };
        match self.lkv.position(key) {
            Some(at) => {
                let mut hist = self.lkv.replace_at(at, IdMap::new());
                hist.insert(ver, bytes);
                self.lkv.replace_at(at, hist);
            },
            None => {
                let mut hist: IdMap<Vec<u8>> = IdMap::new();
                hist.insert(ver, bytes);
                self.lkv.insert(key, hist);
            },
        }
        proof {
            let want = before@.write(key@, slice_opt(value), br, ver).0;
            assert(self@.ver_to_chgset =~= want.ver_to_chgset);
            assert(self@.lkv =~= want.lkv) by {
                assert(self@.lkv[key@] =~= want.lkv[key@]);
            }
            assert(self@ =~= want);
        }
        prev
    }

    /// Stores `value` under `key` at the newest version of branch `br`.
    pub fn insert_by_branch(&mut self, key: &[u8], value: &[u8], br: u64) -> (r: Result<
        Option<Vec<u8>>,
        VsError,
    >)
        requires
            old(self).wf(),
        ensures
            final(self).wf(),
            match old(self)@.insert_by_branch(key@, value@, br) {
                Ok((s, prev)) => final(self)@ == s && r is Ok && bytes_opt(r->Ok_0) == prev,
                Err(e) => final(self)@ == old(self)@ && r == Err::<Option<Vec<u8>>, VsError>(e),
            },
    {
        if !self.br_to_vers.contains_key(br) {
            return Err(VsError::BranchNotFound);
        }
        match self.head_of(br) {
            Some(h) => {
                proof {
                    lemma_head(self@.br_to_vers[br]);
                }
                Ok(self.write_by_branch_version(key, Some(value), br, h))
            },
            None => Err(VsError::NoVersionOnBranch),
        }
    }

    /// Stores `value` under `key` at the newest version of the default
    /// branch.
    pub fn insert(&mut self, key: &[u8], value: &[u8]) -> (r: Result<Option<Vec<u8>>, VsError>)
        requires
            old(self).wf(),
        ensures
            final(self).wf(),
            match old(self)@.insert_by_branch(key@, value@, old(self)@.default_branch) {
                Ok((s, prev)) => final(self)@ == s && r is Ok && bytes_opt(r->Ok_0) == prev,
                Err(e) => final(self)@ == old(self)@ && r == Err::<Option<Vec<u8>>, VsError>(e),
            },
    {
        let br = self.default_branch;
        self.insert_by_branch(key, value, br)
    }

    /// Deletes `key` at the newest version of branch `br`.
    pub fn remove_by_branch(&mut self, key: &[u8], br: u64) -> (r: Result<
        Option<Vec<u8>>,
        VsError,
    >)
        requires
            old(self).wf(),
        ensures
            final(self).wf(),
            match old(self)@.remove_by_branch(key@, br) {
                Ok((s, prev)) => final(self)@ == s && r is Ok && bytes_opt(r->Ok_0) == prev,
                Err(e) => final(self)@ == old(self)@ && r == Err::<Option<Vec<u8>>, VsError>(e),
            },
    {
        if !self.br_to_vers.contains_key(br) {
            return Err(VsError::BranchNotFound);
        }
        match self.head_of(br) {
            Some(h) => {
                proof {
                    lemma_head(self@.br_to_vers[br]);
                }
                Ok(self.write_by_branch_version(key, None, br, h))
            },
            None => Err(VsError::NoVersionOnBranch),
        }
    }

    /// Deletes `key` at the newest version of the default branch.
    pub fn remove(&mut self, key: &[u8]) -> (r: Result<Option<Vec<u8>>, VsError>)
        requires
            old(self).wf(),
        ensures
            final(self).wf(),
            match old(self)@.remove_by_branch(key@, old(self)@.default_branch) {
                Ok((s, prev)) => final(self)@ == s && r is Ok && bytes_opt(r->Ok_0) == prev,
                Err(e) => final(self)@ == old(self)@ && r == Err::<Option<Vec<u8>>, VsError>(e),
            },
    {
        let br = self.default_branch;
        self.remove_by_branch(key, br)
    }

    /// Creates the version `name` on branch `br`.
    pub fn version_create_by_branch(&mut self, name: &[u8], br: u64) -> (r: Result<(), VsError>)
        requires
            old(self).wf(),
        ensures
            final(self).wf(),
            match old(self)@.version_create_by_branch(name@, br) {
                Ok(s) => final(self)@ == s && r is Ok,
                Err(e) => final(self)@ == old(self)@ && r == Err::<(), VsError>(e),
            },
    {
        if self.ver_name_to_id.contains_key(name) {
            return Err(VsError::VersionAlreadyExists);
        }
        let at = match self.br_to_vers.position(br) {
            Some(at) => at,
            None => {
                return Err(VsError::BranchNotFound);
            },
        };
        if self.next_ver_id == u64::MAX {
            return Err(VsError::IdSpaceExhausted);
        }
        let ghost before = *self;
        proof {
            lemma_version_create_inv(before@, name@, br);
        }
        let id = self.next_ver_id;
        self.next_ver_id = id + 1;
        let mut vers = self.br_to_vers.replace_at(at, IdMap::new());
        vers.insert(id, ());
        self.br_to_vers.replace_at(at, vers);
        self.ver_name_to_id.insert(name, id);
        self.ver_id_to_name.insert(id, vstd::slice::slice_to_vec(name));
        self.ver_to_chgset.insert(id, KeyMap::new());
        proof {
            let want = before@.version_create_by_branch(name@, br)->Ok_0;
            assert(self@.br_to_vers =~= want.br_to_vers) by {
                assert(self@.br_to_vers[br] =~= want.br_to_vers[br]);
            }
            assert(self@.ver_id_to_name =~= want.ver_id_to_name);
            assert(self@.ver_to_chgset =~= want.ver_to_chgset);
            assert(self@ =~= want);
        }
        Ok(())
    }

    /// Creates the version `name` on the default branch.
    pub fn version_create(&mut self, name: &[u8]) -> (r: Result<(), VsError>)
        requires
            old(self).wf(),
        ensures
            final(self).wf(),
            match old(self)@.version_create_by_branch(name@, old(self)@.default_branch) {
                Ok(s) => final(self)@ == s && r is Ok,
                Err(e) => final(self)@ == old(self)@ && r == Err::<(), VsError>(e),
            },
    {
        let br = self.default_branch;
        self.version_create_by_branch(name, br)
    }
}

} // verus!
