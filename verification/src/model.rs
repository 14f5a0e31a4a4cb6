//! The mathematical model of a versioned map: its state as maps and sets,
//! what a read returns, and what each operation makes of a state.

use crate::common::{VsError, INITIAL_BRANCH_ID, NULL_ID};
use crate::order::ascending;
use crate::order::ascending_keys;
use crate::order::lex_lt;
use vstd::prelude::*;

verus! {

/// The greatest member of `s` that is at most `ver`: walk down from `ver`
/// and stop at the first member met.
pub open spec fn latest_upto(s: Set<u64>, ver: u64) -> Option<u64>
    decreases ver,
{
    if s.contains(ver) {
        Some(ver)
    } else if ver == 0 {
        None
    } else {
        latest_upto(s, (ver - 1) as u64)
    }
}

/// What `latest_upto` finds is a member, is at most `ver`, and no member up
/// to `ver` is greater; it finds nothing only where there is nothing.
pub proof fn lemma_latest_upto(s: Set<u64>, ver: u64)
    ensures
        match latest_upto(s, ver) {
            Some(v) => s.contains(v) && v <= ver && forall|u: u64|
                s.contains(u) && u <= ver ==> u <= v,
            None => forall|u: u64| s.contains(u) ==> u > ver,
        },
    decreases ver,
{
    if !s.contains(ver) && ver != 0 {
        lemma_latest_upto(s, (ver - 1) as u64);
    }
}

/// The greatest member up to `ver`, once exhibited, is what `latest_upto`
/// finds.
pub proof fn lemma_latest_upto_is(s: Set<u64>, ver: u64, v: u64)
    requires
        s.contains(v),
        v <= ver,
        forall|u: u64| s.contains(u) && u <= ver ==> u <= v,
    ensures
        latest_upto(s, ver) == Some(v),
{
    lemma_latest_upto(s, ver);
}

/// Two sets with the same members up to `ver` have the same latest member
/// up to `ver`.
pub proof fn lemma_latest_upto_same(s: Set<u64>, t: Set<u64>, ver: u64)
    requires
        forall|u: u64| u <= ver ==> (s.contains(u) <==> t.contains(u)),
    ensures
        latest_upto(s, ver) == latest_upto(t, ver),
{
    lemma_latest_upto(s, ver);
    lemma_latest_upto(t, ver);
}

/// The newest version of a set of versions.
pub open spec fn head(s: Set<u64>) -> Option<u64> {
    latest_upto(s, u64::MAX)
}

/// What a read finds in the history `hist` of one key, as of version `ver`,
/// through the versions `vers` of a branch: the value of the newest entry
/// that is no newer than `ver` and belongs to the branch, unless that value
/// is empty, which marks a deletion.
pub open spec fn read(hist: Map<u64, Seq<u8>>, vers: Set<u64>, ver: u64) -> Option<Seq<u8>> {
    match latest_upto(hist.dom().intersect(vers), ver) {
        Some(v) => if hist[v].len() == 0 {
            None
        } else {
            Some(hist[v])
        },
        None => None,
    }
}

/// Each name has an identifier whose name it is, and each identifier has a
/// name whose identifier it is.
pub open spec fn names_paired(to_id: Map<Seq<u8>, u64>, to_name: Map<u64, Seq<u8>>) -> bool {
    &&& forall|n: Seq<u8>| #[trigger]
        to_id.contains_key(n) ==> to_name.contains_key(to_id[n]) && to_name[to_id[n]] == n
    &&& forall|i: u64| #[trigger]
        to_name.contains_key(i) ==> to_id.contains_key(to_name[i]) && to_id[to_name[i]] == i
}

/// The members of `s` that are at most `top`.
pub open spec fn upto(s: Set<u64>, top: u64) -> Set<u64> {
    Set::new(|v: u64| s.contains(v) && v <= top)
}

/// The members of `s` that are greater than `base`.
pub open spec fn above(s: Set<u64>, base: u64) -> Set<u64> {
    Set::new(|v: u64| s.contains(v) && v > base)
}

/// The state of a versioned map.
#[verifier::ext_equal]
pub struct VsState {
    /// The branch that operations work on when none is named.
    pub default_branch: u64,
    /// Branch name to branch identifier.
    pub br_name_to_id: Map<Seq<u8>, u64>,
    /// Branch identifier to branch name.
    pub br_id_to_name: Map<u64, Seq<u8>>,
    /// Version name to version identifier.
    pub ver_name_to_id: Map<Seq<u8>, u64>,
    /// Version identifier to version name.
    pub ver_id_to_name: Map<u64, Seq<u8>>,
    /// For each branch, the versions that reads on it see.
    pub br_to_vers: Map<u64, Set<u64>>,
    /// For each version, the keys written at it.
    pub ver_to_chgset: Map<u64, Set<Seq<u8>>>,
    /// For each key, the value written at each version; an empty value
    /// marks a deletion.
    pub lkv: Map<Seq<u8>, Map<u64, Seq<u8>>>,
    /// The identifier that the next new branch gets.
    pub next_br_id: u64,
    /// The identifier that the next new version gets.
    pub next_ver_id: u64,
}

impl VsState {
    /// The state of a new map: one branch, no version, no data.
    pub open spec fn initial() -> VsState {
        VsState {
            default_branch: INITIAL_BRANCH_ID,
            br_name_to_id: Map::empty().insert(
                crate::common::initial_branch_name(),
                INITIAL_BRANCH_ID,
            ),
            br_id_to_name: Map::empty().insert(
                INITIAL_BRANCH_ID,
                crate::common::initial_branch_name(),
            ),
            ver_name_to_id: Map::empty(),
            ver_id_to_name: Map::empty(),
            br_to_vers: Map::empty().insert(INITIAL_BRANCH_ID, Set::empty()),
            ver_to_chgset: Map::empty(),
            lkv: Map::empty(),
            next_br_id: (INITIAL_BRANCH_ID + 1) as u64,
            next_ver_id: (NULL_ID + 1) as u64,
        }
    }

    /// Every version that a branch sees is a recorded version.
    pub open spec fn visible_versions_recorded(self) -> bool {
        forall|b: u64, v: u64|
            self.br_to_vers.contains_key(b) && #[trigger] self.br_to_vers[b].contains(v)
                ==> self.ver_to_chgset.contains_key(v)
    }

    /// Every entry of a key's history stands at a recorded version whose
    /// change set holds the key.
    pub open spec fn entries_recorded(self) -> bool {
        forall|k: Seq<u8>, v: u64|
            self.lkv.contains_key(k) && #[trigger] self.lkv[k].contains_key(v)
                ==> self.ver_to_chgset.contains_key(v) && self.ver_to_chgset[v].contains(k)
    }

    /// Every key of a change set has an entry at that version.
    pub open spec fn changes_stored(self) -> bool {
        forall|v: u64, k: Seq<u8>|
            self.ver_to_chgset.contains_key(v) && #[trigger] self.ver_to_chgset[v].contains(k)
                ==> self.lkv.contains_key(k) && self.lkv[k].contains_key(v)
    }

    /// What holds of every state that the operations can reach.
    pub open spec fn inv(self) -> bool {
        &&& names_paired(self.br_name_to_id, self.br_id_to_name)
        &&& names_paired(self.ver_name_to_id, self.ver_id_to_name)
        &&& forall|b: u64| self.br_id_to_name.contains_key(b) <==> self.br_to_vers.contains_key(b)
        &&& forall|v: u64|
            self.ver_id_to_name.contains_key(v) <==> self.ver_to_chgset.contains_key(v)
        &&& self.visible_versions_recorded()
        &&& self.entries_recorded()
        &&& self.changes_stored()
        &&& INITIAL_BRANCH_ID < self.next_br_id
        &&& NULL_ID < self.next_ver_id
        &&& forall|b: u64| #[trigger] self.br_to_vers.contains_key(b) ==> NULL_ID < b < self.next_br_id
        &&& forall|v: u64| #[trigger]
            self.ver_to_chgset.contains_key(v) ==> NULL_ID < v < self.next_ver_id
    }

    /// The identifier of the branch called `name`.
    pub open spec fn branch_id(self, name: Seq<u8>) -> Option<u64> {
        if self.br_name_to_id.contains_key(name) {
            Some(self.br_name_to_id[name])
        } else {
            None
        }
    }

    /// The identifier of the version called `name`.
    pub open spec fn version_id(self, name: Seq<u8>) -> Option<u64> {
        if self.ver_name_to_id.contains_key(name) {
            Some(self.ver_name_to_id[name])
        } else {
            None
        }
    }

    /// The history of `key`: what was written to it at each version.
    pub open spec fn history(self, key: Seq<u8>) -> Map<u64, Seq<u8>> {
        if self.lkv.contains_key(key) {
            self.lkv[key]
        } else {
            Map::empty()
        }
    }

    /// The newest version of branch `br`.
    pub open spec fn head_of(self, br: u64) -> Option<u64> {
        if self.br_to_vers.contains_key(br) {
            head(self.br_to_vers[br])
        } else {
            None
        }
    }

    /// The value of `key` as of version `ver`, read through branch `br`.
    pub open spec fn get_by_branch_version(self, key: Seq<u8>, br: u64, ver: u64) -> Option<
        Seq<u8>,
    > {
        if self.br_to_vers.contains_key(br) {
            read(self.history(key), self.br_to_vers[br], ver)
        } else {
            None
        }
    }

    /// The value of `key` at the newest version of branch `br`.
    pub open spec fn get_by_branch(self, key: Seq<u8>, br: u64) -> Option<Seq<u8>> {
        match self.head_of(br) {
            Some(h) => self.get_by_branch_version(key, br, h),
            None => None,
        }
    }

    /// The value of `key` at the newest version of the default branch.
    pub open spec fn get(self, key: Seq<u8>) -> Option<Seq<u8>> {
        self.get_by_branch(key, self.default_branch)
    }

    /// Writes `value` (or a deletion, for `None`) to `key` at version `ver`
    /// of branch `br`. Gives the new state and the value that a read found
    /// before. Deleting what is not there changes nothing.
    pub open spec fn write(self, key: Seq<u8>, value: Option<Seq<u8>>, br: u64, ver: u64) -> (
        VsState,
        Option<Seq<u8>>,
    ) {
        let prev = self.get_by_branch_version(key, br, ver);
        if value is None && prev is None {
            (self, prev)
        } else {
            let bytes = match value {
                Some(b) => b,
                None => Seq::empty(),
            };
            (
                VsState {
                    ver_to_chgset: self.ver_to_chgset.insert(
                        ver,
                        self.ver_to_chgset[ver].insert(key),
                    ),
                    lkv: self.lkv.insert(key, self.history(key).insert(ver, bytes)),
                    ..self
                },
                prev,
            )
        }
    }

    /// Writes to the newest version of branch `br`.
    pub open spec fn write_by_branch(self, key: Seq<u8>, value: Option<Seq<u8>>, br: u64) -> Result<
        (VsState, Option<Seq<u8>>),
        VsError,
    > {
        if !self.br_to_vers.contains_key(br) {
            Err(VsError::BranchNotFound)
        } else {
            match head(self.br_to_vers[br]) {
                Some(h) => Ok(self.write(key, value, br, h)),
                None => Err(VsError::NoVersionOnBranch),
            }
        }
    }

    /// Stores `value` under `key` at the newest version of branch `br`.
    pub open spec fn insert_by_branch(self, key: Seq<u8>, value: Seq<u8>, br: u64) -> Result<
        (VsState, Option<Seq<u8>>),
        VsError,
    > {
        self.write_by_branch(key, Some(value), br)
    }

    /// Deletes `key` at the newest version of branch `br`.
    pub open spec fn remove_by_branch(self, key: Seq<u8>, br: u64) -> Result<
        (VsState, Option<Seq<u8>>),
        VsError,
    > {
        self.write_by_branch(key, None, br)
    }

    /// Creates the version `name` on branch `br`. The new version is the
    /// newest of the branch and has an empty change set.
    pub open spec fn version_create_by_branch(self, name: Seq<u8>, br: u64) -> Result<
        VsState,
        VsError,
    > {
        if self.ver_name_to_id.contains_key(name) {
            Err(VsError::VersionAlreadyExists)
        } else if !self.br_to_vers.contains_key(br) {
            Err(VsError::BranchNotFound)
        } else if self.next_ver_id == u64::MAX {
            Err(VsError::IdSpaceExhausted)
        } else {
            let id = self.next_ver_id;
            Ok(
                VsState {
                    br_to_vers: self.br_to_vers.insert(br, self.br_to_vers[br].insert(id)),
                    ver_name_to_id: self.ver_name_to_id.insert(name, id),
                    ver_id_to_name: self.ver_id_to_name.insert(id, name),
                    ver_to_chgset: self.ver_to_chgset.insert(id, Set::empty()),
                    next_ver_id: (id + 1) as u64,
                    ..self
                },
            )
        }
    }

    /// Whether the version is among the versions of the branch.
    pub open spec fn version_exists_on_branch(self, ver: u64, br: u64) -> bool {
        self.br_to_vers.contains_key(br) && self.br_to_vers[br].contains(ver)
    }

    /// Whether the version is recorded at all, on a branch or on none.
    pub open spec fn version_exists_globally(self, ver: u64) -> bool {
        self.ver_to_chgset.contains_key(ver)
    }

    /// Whether anything was written at the version.
    pub open spec fn version_has_change_set(self, ver: u64) -> Result<bool, VsError> {
        if self.ver_to_chgset.contains_key(ver) {
            Ok(exists|k: Seq<u8>| self.ver_to_chgset[ver].contains(k))
        } else {
            Err(VsError::VersionNotFound)
        }
    }

    /// The names of the versions `ids`, in the order of `ids`.
    pub open spec fn names_of(self, ids: Seq<u64>) -> Seq<Seq<u8>> {
        Seq::new(ids.len(), |i: int| self.ver_id_to_name[ids[i]])
    }

    /// The names of the versions of branch `br`, oldest first.
    pub open spec fn version_list_by_branch(self, br: u64) -> Result<Seq<Seq<u8>>, VsError> {
        if self.br_to_vers.contains_key(br) {
            Ok(self.names_of(ascending(self.br_to_vers[br])))
        } else {
            Err(VsError::BranchNotFound)
        }
    }

    /// The names of all recorded versions, oldest first.
    pub open spec fn version_list_globally(self) -> Seq<Seq<u8>> {
        self.names_of(ascending(self.ver_to_chgset.dom()))
    }

    /// The names of all branches in lexicographic order.
    pub open spec fn branch_list(self) -> Seq<Seq<u8>> {
        ascending_keys(self.br_name_to_id.dom())
    }

    /// Whether a branch has this identifier.
    pub open spec fn branch_exists(self, br: u64) -> bool {
        self.br_id_to_name.contains_key(br)
    }

    /// Whether the branch exists and sees at least one version.
    pub open spec fn branch_has_versions(self, br: u64) -> bool {
        self.branch_exists(br) && self.head_of(br) is Some
    }

    /// Whether nothing was written at any version of the branch.
    pub open spec fn branch_is_empty(self, br: u64) -> Result<bool, VsError> {
        if self.br_to_vers.contains_key(br) {
            Ok(
                forall|v: u64, k: Seq<u8>|
                    self.br_to_vers[br].contains(v) && self.ver_to_chgset.contains_key(v) ==> !(
                    #[trigger] self.ver_to_chgset[v].contains(k)),
            )
        } else {
            Err(VsError::BranchNotFound)
        }
    }

    /// Makes `br` the default branch.
    pub open spec fn branch_set_default(self, br: u64) -> Result<VsState, VsError> {
        if self.branch_exists(br) {
            Ok(VsState { default_branch: br, ..self })
        } else {
            Err(VsError::BranchNotFound)
        }
    }

    /// The state without branch `br`: its versions are no longer seen
    /// through it and its name is free again. The versions themselves stay
    /// recorded.
    pub open spec fn without_branch(self, br: u64) -> VsState {
        VsState {
            br_to_vers: self.br_to_vers.remove(br),
            br_name_to_id: self.br_name_to_id.remove(self.br_id_to_name[br]),
            br_id_to_name: self.br_id_to_name.remove(br),
            ..self
        }
    }

    /// Removes branch `br`.
    pub open spec fn branch_remove(self, br: u64) -> Result<VsState, VsError> {
        if self.br_to_vers.contains_key(br) {
            Ok(self.without_branch(br))
        } else {
            Err(VsError::BranchNotFound)
        }
    }

    /// Branch `br` sees no version any more.
    pub open spec fn branch_truncate(self, br: u64) -> Result<VsState, VsError> {
        if self.br_to_vers.contains_key(br) {
            Ok(VsState { br_to_vers: self.br_to_vers.insert(br, Set::empty()), ..self })
        } else {
            Err(VsError::BranchNotFound)
        }
    }

    /// Branch `br` no longer sees the versions newer than `last`.
    pub open spec fn branch_truncate_to(self, br: u64, last: u64) -> Result<VsState, VsError> {
        if self.br_to_vers.contains_key(br) {
            Ok(
                VsState {
                    br_to_vers: self.br_to_vers.insert(br, upto(self.br_to_vers[br], last)),
                    ..self
                },
            )
        } else {
            Err(VsError::BranchNotFound)
        }
    }

    /// Branch `br` no longer sees its newest version, if it has one.
    pub open spec fn branch_pop_version(self, br: u64) -> Result<VsState, VsError> {
        if self.br_to_vers.contains_key(br) {
            match head(self.br_to_vers[br]) {
                Some(h) => Ok(
                    VsState {
                        br_to_vers: self.br_to_vers.insert(br, self.br_to_vers[br].remove(h)),
                        ..self
                    },
                ),
                None => Ok(self),
            }
        } else {
            Err(VsError::BranchNotFound)
        }
    }

    /// Branch `dst` comes to see every version that branch `src` sees.
    /// Unless forced, this is refused where `dst` has a newest version that
    /// `src` does not see.
    pub open spec fn branch_merge(self, src: u64, dst: u64, force: bool) -> Result<
        VsState,
        VsError,
    > {
        if !self.br_to_vers.contains_key(src) {
            Err(VsError::BranchNotFound)
        } else if !self.br_to_vers.contains_key(dst) {
            Err(VsError::TargetBranchNotFound)
        } else if !force && head(self.br_to_vers[dst]) is Some && !self.br_to_vers[src].contains(
            head(self.br_to_vers[dst])->0,
        ) {
            Err(VsError::UnsafeMerge)
        } else {
            Ok(
                VsState {
                    br_to_vers: self.br_to_vers.insert(
                        dst,
                        self.br_to_vers[dst].union(self.br_to_vers[src]),
                    ),
                    ..self
                },
            )
        }
    }

    /// The branches named `n1` and `n2` trade names. A default branch that
    /// is one of the two stays with its name.
    pub open spec fn branch_swap(self, n1: Seq<u8>, n2: Seq<u8>) -> Result<VsState, VsError> {
        if !self.br_name_to_id.contains_key(n1) || !self.br_name_to_id.contains_key(n2) {
            Err(VsError::BranchNotFound)
        } else {
            let i1 = self.br_name_to_id[n1];
            let i2 = self.br_name_to_id[n2];
            Ok(
                VsState {
                    br_name_to_id: self.br_name_to_id.insert(n1, i2).insert(n2, i1),
                    br_id_to_name: self.br_id_to_name.insert(i1, n2).insert(i2, n1),
                    default_branch: if self.default_branch == i1 {
                        i2
                    } else if self.default_branch == i2 {
                        i1
                    } else {
                        self.default_branch
                    },
                    ..self
                },
            )
        }
    }

    /// The state with one more branch, called `name`, that sees the versions
    /// `seen`.
    pub open spec fn with_new_branch(self, name: Seq<u8>, seen: Set<u64>) -> VsState {
        VsState {
            br_name_to_id: self.br_name_to_id.insert(name, self.next_br_id),
            br_id_to_name: self.br_id_to_name.insert(self.next_br_id, name),
            br_to_vers: self.br_to_vers.insert(self.next_br_id, seen),
            next_br_id: (self.next_br_id + 1) as u64,
            ..self
        }
    }

    /// The state in which a branch called `name` can be created: with
    /// `force`, an existing branch of that name is removed.
    pub open spec fn cleared_for(self, name: Seq<u8>, force: bool) -> VsState {
        if force && self.br_name_to_id.contains_key(name) {
            self.without_branch(self.br_name_to_id[name])
        } else {
            self
        }
    }

    /// Creates the branch `name` from branch `base_br`. With `base_ver` it
    /// sees the versions of `base_br` up to and including that version,
    /// without it none. With `first_ver` a new version of that name is
    /// created on it. With `force` an existing branch of that name is removed
    /// first. A refusal leaves the state as it was.
    pub open spec fn branch_new(
        self,
        name: Seq<u8>,
        first_ver: Option<Seq<u8>>,
        base_br: u64,
        base_ver: Option<u64>,
        force: bool,
    ) -> Result<VsState, VsError> {
        let s1 = self.cleared_for(name, force);
        if first_ver is Some && self.ver_name_to_id.contains_key(first_ver->0) {
            Err(VsError::VersionAlreadyExists)
        } else if s1.br_name_to_id.contains_key(name) {
            Err(VsError::BranchAlreadyExists)
        } else if !s1.br_to_vers.contains_key(base_br) {
            Err(VsError::BaseBranchNotFound)
        } else if base_ver is Some && !s1.br_to_vers[base_br].contains(base_ver->0) {
            Err(VsError::VersionOnWrongBranch)
        } else if s1.next_br_id == u64::MAX || (first_ver is Some && s1.next_ver_id == u64::MAX) {
            Err(VsError::IdSpaceExhausted)
        } else {
            let seen = match base_ver {
                Some(bv) => upto(s1.br_to_vers[base_br], bv),
                None => Set::empty(),
            };
            let s2 = s1.with_new_branch(name, seen);
            match first_ver {
                Some(vn) => s2.version_create_by_branch(vn, s1.next_br_id),
                None => Ok(s2),
            }
        }
    }

    /// Creates the branch `name` from the newest version of `base_br`.
    pub open spec fn branch_new_at_head(
        self,
        name: Seq<u8>,
        first_ver: Option<Seq<u8>>,
        base_br: u64,
        force: bool,
    ) -> Result<VsState, VsError> {
        if first_ver is Some && self.ver_name_to_id.contains_key(first_ver->0) {
            Err(VsError::VersionAlreadyExists)
        } else if !self.br_to_vers.contains_key(base_br) {
            Err(VsError::BaseBranchNotFound)
        } else {
            self.branch_new(name, first_ver, base_br, head(self.br_to_vers[base_br]), force)
        }
    }

    /// The newest version among `vers` at which the history `hist` has an
    /// entry.
    pub open spec fn last_write(hist: Map<u64, Seq<u8>>, vers: Set<u64>) -> Option<u64> {
        head(hist.dom().intersect(vers))
    }

    /// The history has entries, and all of them stand at versions of `vers`.
    pub open spec fn only_at(hist: Map<u64, Seq<u8>>, vers: Set<u64>) -> bool {
        &&& exists|v: u64| hist.contains_key(v)
        &&& forall|v: u64| hist.contains_key(v) ==> vers.contains(v)
    }

    /// Version `target` takes over what the versions `vers` wrote: for each
    /// key that one of them wrote, `target` gets the value of the newest such
    /// write, and the key joins the change set of `target`.
    pub open spec fn absorb(self, target: u64, vers: Set<u64>) -> VsState {
        VsState {
            lkv: Map::new(
                |k: Seq<u8>| self.lkv.contains_key(k),
                |k: Seq<u8>|
                    match Self::last_write(self.lkv[k], vers) {
                        Some(w) => self.lkv[k].insert(target, self.lkv[k][w]),
                        None => self.lkv[k],
                    },
            ),
            ver_to_chgset: self.ver_to_chgset.insert(
                target,
                self.ver_to_chgset[target].union(
                    Set::new(
                        |k: Seq<u8>|
                            self.lkv.contains_key(k) && Self::last_write(self.lkv[k], vers)
                                is Some,
                    ),
                ),
            ),
            ..self
        }
    }

    /// The versions `vers` are forgotten: their change sets, their names and
    /// their entries in the histories go. With `drop_empty`, a key whose
    /// entries all go leaves the map as well.
    pub open spec fn strip(self, vers: Set<u64>, drop_empty: bool) -> VsState {
        VsState {
            ver_to_chgset: self.ver_to_chgset.remove_keys(vers),
            ver_id_to_name: self.ver_id_to_name.remove_keys(vers),
            ver_name_to_id: Map::new(
                |n: Seq<u8>|
                    self.ver_name_to_id.contains_key(n) && !vers.contains(self.ver_name_to_id[n]),
                |n: Seq<u8>| self.ver_name_to_id[n],
            ),
            lkv: Map::new(
                |k: Seq<u8>|
                    self.lkv.contains_key(k) && !(drop_empty && Self::only_at(self.lkv[k], vers)),
                |k: Seq<u8>| self.lkv[k].remove_keys(vers),
            ),
            ..self
        }
    }

    /// No branch sees the versions `vers` any more.
    pub open spec fn detach(self, vers: Set<u64>) -> VsState {
        VsState {
            br_to_vers: Map::new(
                |b: u64| self.br_to_vers.contains_key(b),
                |b: u64| self.br_to_vers[b].difference(vers),
            ),
            ..self
        }
    }

    /// The recorded versions that no branch sees.
    pub open spec fn orphans(self) -> Set<u64> {
        Set::new(
            |v: u64|
                self.ver_to_chgset.contains_key(v) && forall|b: u64|
                    self.br_to_vers.contains_key(b) ==> !(#[trigger] self.br_to_vers[b].contains(
                        v,
                    )),
        )
    }

    /// Forgets every version that no branch sees.
    pub open spec fn version_clean_up_globally(self) -> VsState {
        self.strip(self.orphans(), true)
    }

    /// Forgets version `ver` everywhere: no branch sees it any more, and what
    /// was written at it is gone.
    pub open spec fn version_revert_globally(self, ver: u64) -> Result<VsState, VsError> {
        if self.ver_to_chgset.contains_key(ver) {
            Ok(self.detach(set![ver]).strip(set![ver], false))
        } else {
            Err(VsError::VersionNotFound)
        }
    }

    /// Folds the versions of `br` that are newer than `base` into `base`:
    /// `base` takes over their writes, the newest write to each key winning,
    /// and they are forgotten: no branch sees them any more.
    pub open spec fn version_rebase_by_branch(self, base: u64, br: u64) -> Result<
        VsState,
        VsError,
    > {
        if !self.br_to_vers.contains_key(br) {
            Err(VsError::BranchNotFound)
        } else if !self.br_to_vers[br].contains(base) {
            Err(VsError::VersionOnWrongBranch)
        } else {
            let newer = above(self.br_to_vers[br], base);
            Ok(self.absorb(base, newer).detach(newer).strip(newer, false))
        }
    }

    /// Branch `b` exists and sees at least one version.
    pub open spec fn branch_in_use(self, b: u64) -> bool {
        self.br_to_vers.contains_key(b) && exists|v: u64| self.br_to_vers[b].contains(v)
    }

    /// Version `v` belongs to the history that all branches in use have in
    /// common: each of them sees `v`, and they all see the same versions up
    /// to `v`.
    pub open spec fn shared(self, v: u64) -> bool {
        &&& forall|b: u64| self.branch_in_use(b) ==> #[trigger] self.br_to_vers[b].contains(v)
        &&& forall|b1: u64, b2: u64, u: u64|
            self.branch_in_use(b1) && self.branch_in_use(b2) && u <= v ==> (
            #[trigger] self.br_to_vers[b1].contains(u) <==> #[trigger] self.br_to_vers[b2].contains(
                u,
            ))
    }

    /// `q` lists, oldest first, shared versions that are all newer than `v`.
    pub open spec fn newer_shared(self, v: u64, q: Seq<u64>) -> bool {
        &&& crate::order::ids_rising(q)
        &&& forall|i: int| 0 <= i < q.len() ==> self.shared(#[trigger] q[i]) && q[i] > v
    }

    /// The oldest shared version, to which `prune` moves what it folds.
    pub open spec fn is_rewrite_version(self, r: u64) -> bool {
        &&& self.shared(r)
        &&& forall|u: u64| self.shared(u) ==> r <= u
    }

    /// The oldest shared version.
    pub open spec fn rewrite_version(self) -> u64 {
        choose|r: u64| self.is_rewrite_version(r)
    }

    /// The shared versions that `prune` folds away where it is to keep
    /// `reserve` of them: those that are not the oldest and have at least
    /// `reserve` newer shared versions after them.
    pub open spec fn prunable(self, reserve: nat) -> Set<u64> {
        Set::new(
            |v: u64|
                self.shared(v) && !self.is_rewrite_version(v) && exists|q: Seq<u64>|
                    q.len() == reserve && self.newer_shared(v, q),
        )
    }

    /// For each key that one of `vers` wrote: where version `target` holds a
    /// deletion for it, that entry goes, and the key leaves the change set of
    /// `target`.
    pub open spec fn collapse(self, target: u64, vers: Set<u64>) -> VsState {
        let dead = Set::new(
            |k: Seq<u8>|
                self.lkv.contains_key(k) && Self::last_write(self.lkv[k], vers) is Some
                    && self.lkv[k].contains_key(target) && self.lkv[k][target].len() == 0,
        );
        VsState {
            lkv: Map::new(
                |k: Seq<u8>| self.lkv.contains_key(k),
                |k: Seq<u8>|
                    if dead.contains(k) {
                        self.lkv[k].remove(target)
                    } else {
                        self.lkv[k]
                    },
            ),
            ver_to_chgset: self.ver_to_chgset.insert(
                target,
                self.ver_to_chgset[target].difference(dead),
            ),
            ..self
        }
    }

    /// Folds the versions `vers` into version `target` and forgets them:
    /// `target` takes over their writes, no branch sees them any more,
    /// deletions that `target` took over are dropped, and every version that
    /// no branch sees is forgotten.
    pub open spec fn fold_shared(self, target: u64, vers: Set<u64>) -> VsState {
        self.absorb(target, vers).detach(vers).collapse(target, vers).version_clean_up_globally()
    }

    /// Shortens the history that all branches in use have in common: of the
    /// shared versions, the oldest and the newest `reserve` stay, and the
    /// ones between are folded into the oldest. Without `reserve`,
    /// `RESERVED_VERSION_NUM_DEFAULT` are kept. Nothing happens where no
    /// branch is in use or where there is nothing to fold.
    pub open spec fn prune(self, reserve: Option<usize>) -> Result<VsState, VsError> {
        if reserve == Some(0usize) {
            Err(VsError::InvalidReserveCount)
        } else {
            let keep = Self::reserve_count(reserve);
            if self.has_prunable(keep) {
                Ok(self.fold_shared(self.rewrite_version(), self.prunable(keep)))
            } else {
                Ok(self)
            }
        }
    }

    /// How many of the newest shared versions `prune` is to keep.
    pub open spec fn reserve_count(reserve: Option<usize>) -> nat {
        match reserve {
            Some(n) => n as nat,
            None => crate::common::RESERVED_VERSION_NUM_DEFAULT as nat,
        }
    }

    /// Some branch is in use, and there is a version to fold away.
    pub open spec fn has_prunable(self, keep: nat) -> bool {
        &&& exists|b: u64| self.branch_in_use(b)
        &&& exists|v: u64| self.prunable(keep).contains(v)
    }

    /// The keys written at version `ver`, each with the value written, in
    /// lexicographic order of the keys.
    pub open spec fn change_entries(self, ver: u64) -> Seq<(Seq<u8>, Seq<u8>)> {
        let keys = ascending_keys(self.ver_to_chgset[ver]);
        Seq::new(keys.len(), |i: int| (keys[i], self.lkv[keys[i]][ver]))
    }

    /// The version whose change set `version_chgset_trie_root` hashes: the
    /// one named, or else the newest of the branch named, or else the newest
    /// of the default branch.
    pub open spec fn resolve_version(self, br: Option<u64>, ver: Option<u64>) -> Result<
        u64,
        VsError,
    > {
        match ver {
            Some(v) => if self.ver_to_chgset.contains_key(v) {
                Ok(v)
            } else {
                Err(VsError::VersionNotFound)
            },
            None => {
                let b = match br {
                    Some(b) => b,
                    None => self.default_branch,
                };
                if !self.br_to_vers.contains_key(b) {
                    Err(VsError::BranchNotFound)
                } else {
                    match head(self.br_to_vers[b]) {
                        Some(h) => Ok(h),
                        None => Err(VsError::VersionNotFound),
                    }
                }
            },
        }
    }

    /// The state after `clear`: as new, but that no identifier is handed out
    /// twice.
    pub open spec fn cleared(self) -> VsState {
        VsState { next_br_id: self.next_br_id, next_ver_id: self.next_ver_id, ..Self::initial() }
    }

    /// The state without the branches `gone`: their names are free again and
    /// nothing is seen through them.
    pub open spec fn without_branches(self, gone: Set<u64>) -> VsState {
        VsState {
            br_to_vers: self.br_to_vers.remove_keys(gone),
            br_id_to_name: self.br_id_to_name.remove_keys(gone),
            br_name_to_id: Map::new(
                |n: Seq<u8>|
                    self.br_name_to_id.contains_key(n) && !gone.contains(self.br_name_to_id[n]),
                |n: Seq<u8>| self.br_name_to_id[n],
            ),
            ..self
        }
    }

    /// Only the branches `keep` stay; then every version that no branch sees
    /// is forgotten.
    pub open spec fn branch_keep_only(self, keep: Set<u64>) -> VsState {
        self.without_branches(Set::new(|b: u64| !keep.contains(b))).version_clean_up_globally()
    }

    /// What key `k` contributes to a scan as of version `ver` of branch
    /// `br` within the bounds: the key with its value, if it lies within the
    /// bounds and has a value there, and nothing otherwise.
    pub open spec fn entry_of(
        self,
        k: Seq<u8>,
        br: u64,
        ver: u64,
        lower: Limit,
        upper: Limit,
    ) -> Seq<(Seq<u8>, Seq<u8>)> {
        if within(k, lower, upper) {
            match self.get_by_branch_version(k, br, ver) {
                Some(v) => seq![(k, v)],
                None => Seq::empty(),
            }
        } else {
            Seq::empty()
        }
    }

    /// What the keys `keys` contribute to a scan, in the order of `keys`.
    pub open spec fn entries_of(
        self,
        keys: Seq<Seq<u8>>,
        br: u64,
        ver: u64,
        lower: Limit,
        upper: Limit,
    ) -> Seq<(Seq<u8>, Seq<u8>)>
        decreases keys.len(),
    {
        if keys.len() == 0 {
            Seq::empty()
        } else {
            self.entry_of(keys[0], br, ver, lower, upper) + self.entries_of(
                keys.drop_first(),
                br,
                ver,
                lower,
                upper,
            )
        }
    }

    /// The keys that have a value as of version `ver` of branch `br` and
    /// lie within the bounds, each with its value, in lexicographic order of
    /// the keys.
    pub open spec fn range_by_branch_version(
        self,
        br: u64,
        ver: u64,
        lower: Limit,
        upper: Limit,
    ) -> Seq<(Seq<u8>, Seq<u8>)> {
        self.entries_of(ascending_keys(self.lkv.dom()), br, ver, lower, upper)
    }

    /// The same at the newest version of branch `br`; nothing where the
    /// branch does not exist or has no version.
    pub open spec fn range_by_branch(self, br: u64, lower: Limit, upper: Limit) -> Seq<
        (Seq<u8>, Seq<u8>),
    > {
        match self.head_of(br) {
            Some(h) => self.range_by_branch_version(br, h, lower, upper),
            None => Seq::empty(),
        }
    }
}

/// One end of a range of keys, as byte sequences.
pub enum Limit {
    /// The range is open at this end.
    Unbounded,
    /// The range ends with this key.
    Included(Seq<u8>),
    /// The range ends just before this key.
    Excluded(Seq<u8>),
}

/// `k` is not before the lower end `lower`.
pub open spec fn above_lower(k: Seq<u8>, lower: Limit) -> bool {
    match lower {
        Limit::Unbounded => true,
        Limit::Included(b) => !lex_lt(k, b),
        Limit::Excluded(b) => lex_lt(b, k),
    }
}

/// `k` is not after the upper end `upper`.
pub open spec fn below_upper(k: Seq<u8>, upper: Limit) -> bool {
    match upper {
        Limit::Unbounded => true,
        Limit::Included(b) => !lex_lt(b, k),
        Limit::Excluded(b) => lex_lt(k, b),
    }
}

/// `k` lies within the range from `lower` to `upper`.
pub open spec fn within(k: Seq<u8>, lower: Limit, upper: Limit) -> bool {
    above_lower(k, lower) && below_upper(k, upper)
}

} // verus!
