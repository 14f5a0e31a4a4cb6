//! The versioned map addressed by branch and version names.

use crate::backend::scan::{first_entry, last_entry, pair_opt, MapxRawVsIter};
use crate::backend::branches::branch_names_view;
use crate::backend::versions::version_names_view;
use crate::backend::{bytes_opt, VsBackend};
use crate::common::{
    BranchName, BranchNameOwned, KeyBound, ParentBranchName, VersionName, VersionNameOwned,
    VsError, NULL_ID,
};
use crate::model::{Limit, VsState};
use crate::stored::{stored_form, MapxRawVsWithoutDerivedFields};
use crate::trie::{entries_view, trie_root_of};
use vstd::prelude::*;

verus! {

/// An operation that was to do `want` has turned the state `before` into
/// `after` and reported `r`: on success the state is the wanted one, on
/// refusal it is unchanged and the error is the wanted one.
pub open spec fn outcome_is(
    want: Result<VsState, VsError>,
    before: VsState,
    after: VsState,
    r: Result<(), VsError>,
) -> bool {
    match want {
        Ok(s) => after == s && r is Ok,
        Err(e) => after == before && r == Err::<(), VsError>(e),
    }
}

/// The same for a write, which also reports the value that was read before.
pub open spec fn write_outcome_is(
    want: Result<(VsState, Option<Seq<u8>>), VsError>,
    before: VsState,
    after: VsState,
    r: Result<Option<Vec<u8>>, VsError>,
) -> bool {
    match want {
        Ok((s, prev)) => after == s && r is Ok && bytes_opt(r->Ok_0) == prev,
        Err(e) => after == before && r == Err::<Option<Vec<u8>>, VsError>(e),
    }
}

/// What the operation `op` on a branch gives for the branch called `name`:
/// a refusal where there is no such branch.
pub open spec fn on_branch<T>(s: VsState, name: Seq<u8>, op: spec_fn(u64) -> Result<T, VsError>)
    -> Result<T, VsError> {
    match s.branch_id(name) {
        Some(b) => op(b),
        None => Err(VsError::BranchNotFound),
    }
}

/// What the operation `op` on a version gives for the version called
/// `name`: a refusal where there is no such version.
pub open spec fn on_version<T>(
    s: VsState,
    name: Seq<u8>,
    op: spec_fn(u64) -> Result<T, VsError>,
) -> Result<T, VsError> {
    match s.version_id(name) {
        Some(v) => op(v),
        None => Err(VsError::VersionNotFound),
    }
}

/// What a scan as of the version called `ver_name` of the branch called
/// `br_name` hands out: nothing where either name is unknown.
pub open spec fn scan_by_names(
    s: VsState,
    br_name: Seq<u8>,
    ver_name: Seq<u8>,
    lower: Limit,
    upper: Limit,
) -> Seq<(Seq<u8>, Seq<u8>)> {
    match (s.branch_id(br_name), s.version_id(ver_name)) {
        (Some(b), Some(v)) => s.range_by_branch_version(b, v, lower, upper),
        _ => Seq::empty(),
    }
}

/// What a scan at the newest version of the branch called `br_name` hands
/// out: nothing where the name is unknown.
pub open spec fn scan_by_name(s: VsState, br_name: Seq<u8>, lower: Limit, upper: Limit) -> Seq<
    (Seq<u8>, Seq<u8>),
> {
    match s.branch_id(br_name) {
        Some(b) => s.range_by_branch(b, lower, upper),
        None => Seq::empty(),
    }
}

/// A scan through a branch that does not exist, or as of the version that
/// no version is, hands out nothing.
pub proof fn lemma_scan_of_nothing(
    s: VsState,
    keys: Seq<Seq<u8>>,
    br: u64,
    ver: u64,
    lower: Limit,
    upper: Limit,
)
    requires
        s.inv(),
        !s.br_to_vers.contains_key(br) || ver == NULL_ID,
    ensures
        s.entries_of(keys, br, ver, lower, upper) == Seq::<(Seq<u8>, Seq<u8>)>::empty(),
    decreases keys.len(),
{
    if keys.len() > 0 {
        lemma_scan_of_nothing(s, keys.drop_first(), br, ver, lower, upper);
        if s.br_to_vers.contains_key(br) {
            let seen = s.history(keys[0]).dom().intersect(s.br_to_vers[br]);
            if seen.contains(0) {
                assert(s.br_to_vers[br].contains(0));
                assert(s.ver_to_chgset.contains_key(0));
            }
        }
        assert(Seq::<(Seq<u8>, Seq<u8>)>::empty() + Seq::<(Seq<u8>, Seq<u8>)>::empty() =~= Seq::<
            (Seq<u8>, Seq<u8>),
        >::empty());
    }
}

/// A byte-keyed, byte-valued map that keeps its history along named
/// branches and named versions.
#[derive(Clone, Debug)]
pub struct MapxRawVs {
    inner: VsBackend,
}

impl View for MapxRawVs {
    type V = VsState;

    closed spec fn view(&self) -> VsState {
        self.inner@
    }
}

impl Default for MapxRawVs {
    /// A new map, as `new` gives it.
    fn default() -> (m: Self)
        ensures
            m.wf(),
            m@ == VsState::initial(),
    {
        MapxRawVs::new()
    }
}

impl MapxRawVs {
    /// The map is well formed. Every operation asks for this and keeps it.
    pub closed spec fn wf(&self) -> bool {
        self.inner.wf()
    }

    /// A well-formed map is in a valid state.
    pub proof fn lemma_wf(&self)
        requires
            self.wf(),
        ensures
            self@.inv(),
    {
        self.inner.lemma_wf();
    }

    /// A new map: one branch, called `main`, which is the default branch,
    /// and no version.
    pub fn new() -> (m: Self)
        ensures
            m.wf(),
            m@ == VsState::initial(),
    {
        MapxRawVs { inner: VsBackend::new() }
    }

    /// A copy of the map that shares nothing with it: what is done to the
    /// one is not seen in the other.
    pub fn duplicate(&self) -> (r: Self)
        requires
            self.wf(),
        ensures
            r.wf(),
            r@ == self@,
    {
        MapxRawVs { inner: self.inner.duplicate() }
    }

    /// A second handle on the same map for reading.
    pub fn shadow(&self) -> (r: &Self)
        ensures
            r == self,
    {
        self
    }

    /// Stores `value` under `key` at the newest version of the default
    /// branch and hands back the value that the key had. An empty `value`
    /// stores a deletion.
    pub fn insert(&mut self, key: &[u8], value: &[u8]) -> (r: Result<Option<Vec<u8>>, VsError>)
        requires
            old(self).wf(),
        ensures
            final(self).wf(),
            write_outcome_is(
                old(self)@.insert_by_branch(key@, value@, old(self)@.default_branch),
                old(self)@,
                final(self)@,
                r,
            ),
    {
        self.inner.insert(key, value)
    }

    /// Stores `value` under `key` at the newest version of the branch
    /// called `br_name`.
    pub fn insert_by_branch(&mut self, key: &[u8], value: &[u8], br_name: BranchName<'_>) -> (r:
        Result<Option<Vec<u8>>, VsError>)
        requires
            old(self).wf(),
        ensures
            final(self).wf(),
            write_outcome_is(
                on_branch(
                    old(self)@,
                    br_name.0@,
                    |b: u64| old(self)@.insert_by_branch(key@, value@, b),
                ),
                old(self)@,
                final(self)@,
                r,
            ),
    {
        match self.inner.branch_get_id_by_name(br_name.0) {
            Some(br) => self.inner.insert_by_branch(key, value, br),
            None => Err(VsError::BranchNotFound),
        }
    }

    /// Deletes `key` at the newest version of the default branch and hands
    /// back the value that the key had.
    pub fn remove(&mut self, key: &[u8]) -> (r: Result<Option<Vec<u8>>, VsError>)
        requires
            old(self).wf(),
        ensures
            final(self).wf(),
            write_outcome_is(
                old(self)@.remove_by_branch(key@, old(self)@.default_branch),
                old(self)@,
                final(self)@,
                r,
            ),
    {
        self.inner.remove(key)
    }

    /// Deletes `key` at the newest version of the branch called `br_name`.
    pub fn remove_by_branch(&mut self, key: &[u8], br_name: BranchName<'_>) -> (r: Result<
        Option<Vec<u8>>,
        VsError,
    >)
        requires
            old(self).wf(),
        ensures
            final(self).wf(),
            write_outcome_is(
                on_branch(old(self)@, br_name.0@, |b: u64| old(self)@.remove_by_branch(key@, b)),
                old(self)@,
                final(self)@,
                r,
            ),
    {
        match self.inner.branch_get_id_by_name(br_name.0) {
            Some(br) => self.inner.remove_by_branch(key, br),
            None => Err(VsError::BranchNotFound),
        }
    }

    /// The value of `key` at the newest version of the default branch.
    pub fn get(&self, key: &[u8]) -> (r: Option<Vec<u8>>)
        requires
            self.wf(),
        ensures
            bytes_opt(r) == self@.get(key@),
    {
        self.inner.get(key)
    }

    /// The value of `key` at the newest version of the branch called
    /// `br_name`.
    pub fn get_by_branch(&self, key: &[u8], br_name: BranchName<'_>) -> (r: Option<Vec<u8>>)
        requires
            self.wf(),
        ensures
            bytes_opt(r) == (match self@.branch_id(br_name.0@) {
                Some(b) => self@.get_by_branch(key@, b),
                None => None,
            }),
    {
        match self.inner.branch_get_id_by_name(br_name.0) {
            Some(br) => self.inner.get_by_branch(key, br),
            None => None,
        }
    }

    /// The value of `key` as of the version called `ver_name`, read through
    /// the branch called `br_name`.
    pub fn get_by_branch_version(
        &self,
        key: &[u8],
        br_name: BranchName<'_>,
        ver_name: VersionName<'_>,
    ) -> (r: Option<Vec<u8>>)
        requires
            self.wf(),
        ensures
            bytes_opt(r) == (match (self@.branch_id(br_name.0@), self@.version_id(ver_name.0@)) {
                (Some(b), Some(v)) => self@.get_by_branch_version(key@, b, v),
                _ => None,
            }),
    {
        let br = match self.inner.branch_get_id_by_name(br_name.0) {
            Some(br) => br,
            None => {
                return None;
            },
        };
        let ver = match self.inner.version_get_id_by_name(ver_name.0) {
            Some(ver) => ver,
            None => {
                return None;
            },
        };
        self.inner.get_by_branch_version(key, br, ver)
    }

    /// The first key at or after `key` that has a value at the newest
    /// version of the default branch, with its value.
    pub fn get_ge(&self, key: &[u8]) -> (r: Option<(Vec<u8>, Vec<u8>)>)
        requires
            self.wf(),
        ensures
            pair_opt(r) == first_entry(
                self@.range_by_branch(
                    self@.default_branch,
                    Limit::Included(key@),
                    Limit::Unbounded,
                ),
            ),
    {
        self.inner.get_ge(key)
    }

    /// The first key at or after `key` that has a value at the newest
    /// version of the branch called `br_name`, with its value.
    pub fn get_ge_by_branch(&self, key: &[u8], br_name: BranchName<'_>) -> (r: Option<
        (Vec<u8>, Vec<u8>),
    >)
        requires
            self.wf(),
        ensures
            pair_opt(r) == first_entry(
                scan_by_name(self@, br_name.0@, Limit::Included(key@), Limit::Unbounded),
            ),
    {
        match self.inner.branch_get_id_by_name(br_name.0) {
            Some(br) => self.inner.get_ge_by_branch(key, br),
            None => None,
        }
    }

    /// The first key at or after `key` that has a value as of the version
    /// called `ver_name` of the branch called `br_name`, with its value.
    pub fn get_ge_by_branch_version(
        &self,
        key: &[u8],
        br_name: BranchName<'_>,
        ver_name: VersionName<'_>,
    ) -> (r: Option<(Vec<u8>, Vec<u8>)>)
        requires
            self.wf(),
        ensures
            pair_opt(r) == first_entry(
                scan_by_names(
                    self@,
                    br_name.0@,
                    ver_name.0@,
                    Limit::Included(key@),
                    Limit::Unbounded,
                ),
            ),
    {
        let br = match self.inner.branch_get_id_by_name(br_name.0) {
            Some(br) => br,
            None => {
                return None;
            },
        };
        let ver = match self.inner.version_get_id_by_name(ver_name.0) {
            Some(ver) => ver,
            None => {
                return None;
            },
        };
        self.inner.get_ge_by_branch_version(key, br, ver)
    }

    /// The last key at or before `key` that has a value at the newest
    /// version of the default branch, with its value.
    pub fn get_le(&self, key: &[u8]) -> (r: Option<(Vec<u8>, Vec<u8>)>)
        requires
            self.wf(),
        ensures
            pair_opt(r) == last_entry(
                self@.range_by_branch(
                    self@.default_branch,
                    Limit::Unbounded,
                    Limit::Included(key@),
                ),
            ),
    {
        self.inner.get_le(key)
    }

    /// The last key at or before `key` that has a value at the newest
    /// version of the branch called `br_name`, with its value.
    pub fn get_le_by_branch(&self, key: &[u8], br_name: BranchName<'_>) -> (r: Option<
        (Vec<u8>, Vec<u8>),
    >)
        requires
            self.wf(),
        ensures
            pair_opt(r) == last_entry(
                scan_by_name(self@, br_name.0@, Limit::Unbounded, Limit::Included(key@)),
            ),
    {
        match self.inner.branch_get_id_by_name(br_name.0) {
            Some(br) => self.inner.get_le_by_branch(key, br),
            None => None,
        }
    }

    /// The last key at or before `key` that has a value as of the version
    /// called `ver_name` of the branch called `br_name`, with its value.
    pub fn get_le_by_branch_version(
        &self,
        key: &[u8],
        br_name: BranchName<'_>,
        ver_name: VersionName<'_>,
    ) -> (r: Option<(Vec<u8>, Vec<u8>)>)
        requires
            self.wf(),
        ensures
            pair_opt(r) == last_entry(
                scan_by_names(
                    self@,
                    br_name.0@,
                    ver_name.0@,
                    Limit::Unbounded,
                    Limit::Included(key@),
                ),
            ),
    {
        let br = match self.inner.branch_get_id_by_name(br_name.0) {
            Some(br) => br,
            None => {
                return None;
            },
        };
        let ver = match self.inner.version_get_id_by_name(ver_name.0) {
            Some(ver) => ver,
            None => {
                return None;
            },
        };
        self.inner.get_le_by_branch_version(key, br, ver)
    }

    /// A scan over all keys at the newest version of the default branch.
    pub fn iter(&self) -> (it: MapxRawVsIter<'_>)
        requires
            self.wf(),
        ensures
            it.wf(),
            it.remaining() == self@.range_by_branch(
                self@.default_branch,
                Limit::Unbounded,
                Limit::Unbounded,
            ),
    {
        self.inner.iter()
    }

    /// A scan over all keys at the newest version of the branch called
    /// `br_name`. It hands out nothing where there is no such branch.
    pub fn iter_by_branch(&self, br_name: BranchName<'_>) -> (it: MapxRawVsIter<'_>)
        requires
            self.wf(),
        ensures
            it.wf(),
            it.remaining() == scan_by_name(self@, br_name.0@, Limit::Unbounded, Limit::Unbounded),
    {
        self.range_by_branch(br_name, KeyBound::Unbounded, KeyBound::Unbounded)
    }

    /// A scan over all keys as of the version called `ver_name` of the
    /// branch called `br_name`. It hands out nothing where either name is
    /// unknown.
    pub fn iter_by_branch_version(&self, br_name: BranchName<'_>, ver_name: VersionName<'_>) -> (it:
        MapxRawVsIter<'_>)
        requires
            self.wf(),
        ensures
            it.wf(),
            it.remaining() == scan_by_names(
                self@,
                br_name.0@,
                ver_name.0@,
                Limit::Unbounded,
                Limit::Unbounded,
            ),
    {
        self.range_by_branch_version(br_name, ver_name, KeyBound::Unbounded, KeyBound::Unbounded)
    }

    /// A scan over the keys from `lower` to `upper` at the newest version of
    /// the default branch.
    pub fn range(&self, lower: KeyBound<'_>, upper: KeyBound<'_>) -> (it: MapxRawVsIter<'_>)
        requires
            self.wf(),
        ensures
            it.wf(),
            it.remaining() == self@.range_by_branch(self@.default_branch, lower@, upper@),
    {
        self.inner.range(lower, upper)
    }

    /// A scan over the keys from `lower` to `upper` at the newest version of
    /// the branch called `br_name`.
    pub fn range_by_branch(
        &self,
        br_name: BranchName<'_>,
        lower: KeyBound<'_>,
        upper: KeyBound<'_>,
    ) -> (it: MapxRawVsIter<'_>)
        requires
            self.wf(),
        ensures
            it.wf(),
            it.remaining() == scan_by_name(self@, br_name.0@, lower@, upper@),
    {
        let br = match self.inner.branch_get_id_by_name(br_name.0) {
            Some(br) => br,
            None => NULL_ID,
        };
        proof {
            self.inner.lemma_wf();
            if self@.branch_id(br_name.0@) is None {
                if self@.br_to_vers.contains_key(NULL_ID) {
                    assert(false);
                }
            }
        }
        self.inner.range_by_branch(br, lower, upper)
    }

    /// A scan over the keys from `lower` to `upper` as of the version called
    /// `ver_name` of the branch called `br_name`.
    pub fn range_by_branch_version(
        &self,
        br_name: BranchName<'_>,
        ver_name: VersionName<'_>,
        lower: KeyBound<'_>,
        upper: KeyBound<'_>,
    ) -> (it: MapxRawVsIter<'_>)
        requires
            self.wf(),
        ensures
            it.wf(),
            it.remaining() == scan_by_names(self@, br_name.0@, ver_name.0@, lower@, upper@),
    {
        let br = match self.inner.branch_get_id_by_name(br_name.0) {
            Some(br) => br,
            None => NULL_ID,
        };
        let ver = match self.inner.version_get_id_by_name(ver_name.0) {
            Some(ver) => ver,
            None => NULL_ID,
        };
        proof {
            self.inner.lemma_wf();
            if self@.branch_id(br_name.0@) is None || self@.version_id(ver_name.0@) is None {
                lemma_scan_of_nothing(
                    self@,
                    crate::order::ascending_keys(self@.lkv.dom()),
                    br,
                    ver,
                    lower@,
                    upper@,
                );
            }
        }
        self.inner.range_by_branch_version(br, ver, lower, upper)
    }

    /// Whether `key` has a value at the newest version of the default
    /// branch.
    pub fn contains_key(&self, key: &[u8]) -> (b: bool)
        requires
            self.wf(),
        ensures
            b == self@.get(key@) is Some,
    {
        self.get(key).is_some()
    }

    /// Whether `key` has a value at the newest version of the branch called
    /// `br_name`.
    pub fn contains_key_by_branch(&self, key: &[u8], br_name: BranchName<'_>) -> (b: bool)
        requires
            self.wf(),
        ensures
            b == (match self@.branch_id(br_name.0@) {
                Some(br) => self@.get_by_branch(key@, br) is Some,
                None => false,
            }),
    {
        self.get_by_branch(key, br_name).is_some()
    }

    /// Whether `key` has a value as of the version called `ver_name` of the
    /// branch called `br_name`.
    pub fn contains_key_by_branch_version(
        &self,
        key: &[u8],
        br_name: BranchName<'_>,
        ver_name: VersionName<'_>,
    ) -> (b: bool)
        requires
            self.wf(),
        ensures
            b == (match (self@.branch_id(br_name.0@), self@.version_id(ver_name.0@)) {
                (Some(br), Some(v)) => self@.get_by_branch_version(key@, br, v) is Some,
                _ => false,
            }),
    {
        self.get_by_branch_version(key, br_name, ver_name).is_some()
    }

    /// How many keys have a value at the newest version of the default
    /// branch. Every key of the map is looked at.
    pub fn len(&self) -> (n: usize)
        requires
            self.wf(),
        ensures
            n == self@.range_by_branch(
                self@.default_branch,
                Limit::Unbounded,
                Limit::Unbounded,
            ).len(),
    {
        self.inner.len()
    }

    /// How many keys have a value at the newest version of the branch
    /// called `br_name`; none where there is no such branch.
    pub fn len_by_branch(&self, br_name: BranchName<'_>) -> (n: usize)
        requires
            self.wf(),
        ensures
            n == scan_by_name(self@, br_name.0@, Limit::Unbounded, Limit::Unbounded).len(),
    {
        match self.inner.branch_get_id_by_name(br_name.0) {
            Some(br) => self.inner.len_by_branch(br),
            None => 0,
        }
    }

    /// How many keys have a value as of the version called `ver_name` of the
    /// branch called `br_name`; none where either name is unknown.
    pub fn len_by_branch_version(&self, br_name: BranchName<'_>, ver_name: VersionName<'_>) -> (n:
        usize)
        requires
            self.wf(),
        ensures
            n == scan_by_names(
                self@,
                br_name.0@,
                ver_name.0@,
                Limit::Unbounded,
                Limit::Unbounded,
            ).len(),
    {
        let br = match self.inner.branch_get_id_by_name(br_name.0) {
            Some(br) => br,
            None => {
                return 0;
            },
        };
        let ver = match self.inner.version_get_id_by_name(ver_name.0) {
            Some(ver) => ver,
            None => {
                return 0;
            },
        };
        self.inner.len_by_branch_version(br, ver)
    }

    /// Whether no key has a value at the newest version of the default
    /// branch.
    pub fn is_empty(&self) -> (b: bool)
        requires
            self.wf(),
        ensures
            b == (self@.range_by_branch(
                self@.default_branch,
                Limit::Unbounded,
                Limit::Unbounded,
            ).len() == 0),
    {
        let mut it = self.iter();
        it.next().is_none()
    }

    /// Whether no key has a value at the newest version of the branch called
    /// `br_name`.
    pub fn is_empty_by_branch(&self, br_name: BranchName<'_>) -> (b: bool)
        requires
            self.wf(),
        ensures
            b == (scan_by_name(self@, br_name.0@, Limit::Unbounded, Limit::Unbounded).len() == 0),
    {
        let mut it = self.iter_by_branch(br_name);
        it.next().is_none()
    }

    /// Whether no key has a value as of the version called `ver_name` of the
    /// branch called `br_name`.
    pub fn is_empty_by_branch_version(
        &self,
        br_name: BranchName<'_>,
        ver_name: VersionName<'_>,
    ) -> (b: bool)
        requires
            self.wf(),
        ensures
            b == (scan_by_names(
                self@,
                br_name.0@,
                ver_name.0@,
                Limit::Unbounded,
                Limit::Unbounded,
            ).len() == 0),
    {
        let mut it = self.iter_by_branch_version(br_name, ver_name);
        it.next().is_none()
    }

    /// Drops all branches, versions and data, and starts again with the
    /// initial branch.
    pub fn clear(&mut self)
        requires
            old(self).wf(),
        ensures
            final(self).wf(),
            final(self)@ == old(self)@.cleared(),
    {
        self.inner.clear();
    }

    /// Creates the version `ver_name` on the default branch. It becomes the
    /// newest version of the branch, so writes go to it from now on.
    pub fn version_create(&mut self, ver_name: VersionName<'_>) -> (r: Result<(), VsError>)
        requires
            old(self).wf(),
        ensures
            final(self).wf(),
            outcome_is(
                old(self)@.version_create_by_branch(ver_name.0@, old(self)@.default_branch),
                old(self)@,
                final(self)@,
                r,
            ),
    {
        self.inner.version_create(ver_name.0)
    }

    /// Creates the version `ver_name` on the branch called `br_name`.
    pub fn version_create_by_branch(&mut self, ver_name: VersionName<'_>, br_name: BranchName<'_>)
        -> (r: Result<(), VsError>)
        requires
            old(self).wf(),
        ensures
            final(self).wf(),
            outcome_is(
                on_branch(
                    old(self)@,
                    br_name.0@,
                    |b: u64| old(self)@.version_create_by_branch(ver_name.0@, b),
                ),
                old(self)@,
                final(self)@,
                r,
            ),
    {
        match self.inner.branch_get_id_by_name(br_name.0) {
            Some(br) => self.inner.version_create_by_branch(ver_name.0, br),
            None => Err(VsError::BranchNotFound),
        }
    }

    /// Whether a version of that name is recorded, on a branch or on none.
    pub fn version_exists_globally(&self, ver_name: VersionName<'_>) -> (b: bool)
        requires
            self.wf(),
        ensures
            b == self@.version_id(ver_name.0@) is Some,
    {
        match self.inner.version_get_id_by_name(ver_name.0) {
            Some(ver) => self.inner.version_exists_globally(ver),
            None => false,
        }
    }

    /// Whether the default branch sees a version of that name.
    pub fn version_exists(&self, ver_name: VersionName<'_>) -> (b: bool)
        requires
            self.wf(),
        ensures
            b == (match self@.version_id(ver_name.0@) {
                Some(v) => self@.version_exists_on_branch(v, self@.default_branch),
                None => false,
            }),
    {
        match self.inner.version_get_id_by_name(ver_name.0) {
            Some(ver) => self.inner.version_exists(ver),
            None => false,
        }
    }

    /// Whether the branch called `br_name` sees a version of that name.
    pub fn version_exists_on_branch(&self, ver_name: VersionName<'_>, br_name: BranchName<'_>) -> (b:
        bool)
        requires
            self.wf(),
        ensures
            b == (match (self@.branch_id(br_name.0@), self@.version_id(ver_name.0@)) {
                (Some(br), Some(v)) => self@.version_exists_on_branch(v, br),
                _ => false,
            }),
    {
        let br = match self.inner.branch_get_id_by_name(br_name.0) {
            Some(br) => br,
            None => {
                return false;
            },
        };
        match self.inner.version_get_id_by_name(ver_name.0) {
            Some(ver) => self.inner.version_exists_on_branch(ver, br),
            None => false,
        }
    }

    /// The default branch no longer sees its newest version. The version
    /// stays recorded until the versions that no branch sees are cleaned up.
    pub fn version_pop(&mut self) -> (r: Result<(), VsError>)
        requires
            old(self).wf(),
        ensures
            final(self).wf(),
            outcome_is(
                old(self)@.branch_pop_version(old(self)@.default_branch),
                old(self)@,
                final(self)@,
                r,
            ),
    {
        self.inner.version_pop()
    }

    /// The branch called `br_name` no longer sees its newest version.
    pub fn version_pop_by_branch(&mut self, br_name: BranchName<'_>) -> (r: Result<(), VsError>)
        requires
            old(self).wf(),
        ensures
            final(self).wf(),
            outcome_is(
                on_branch(old(self)@, br_name.0@, |b: u64| old(self)@.branch_pop_version(b)),
                old(self)@,
                final(self)@,
                r,
            ),
    {
        match self.inner.branch_get_id_by_name(br_name.0) {
            Some(br) => self.inner.version_pop_by_branch(br),
            None => Err(VsError::BranchNotFound),
        }
    }

    /// Folds the versions of the default branch that are newer than
    /// `base_version` into it. What the branch reads at its newest version
    /// stays as it was. A branch that saw one of the folded versions no
    /// longer sees it: make sure that there is none.
    pub fn version_rebase(&mut self, base_version: VersionName<'_>) -> (r: Result<(), VsError>)
        requires
            old(self).wf(),
        ensures
            final(self).wf(),
            outcome_is(
                on_version(
                    old(self)@,
                    base_version.0@,
                    |v: u64| old(self)@.version_rebase_by_branch(v, old(self)@.default_branch),
                ),
                old(self)@,
                final(self)@,
                r,
            ),
    {
        match self.inner.version_get_id_by_name(base_version.0) {
            Some(base) => self.inner.version_rebase(base),
            None => Err(VsError::VersionNotFound),
        }
    }

    /// Folds the versions of the branch called `br_name` that are newer than
    /// `base_version` into it.
    pub fn version_rebase_by_branch(
        &mut self,
        base_version: VersionName<'_>,
        br_name: BranchName<'_>,
    ) -> (r: Result<(), VsError>)
        requires
            old(self).wf(),
        ensures
            final(self).wf(),
            outcome_is(
                on_version(
                    old(self)@,
                    base_version.0@,
                    |v: u64|
                        on_branch(
                            old(self)@,
                            br_name.0@,
                            |b: u64| old(self)@.version_rebase_by_branch(v, b),
                        ),
                ),
                old(self)@,
                final(self)@,
                r,
            ),
    {
        let base = match self.inner.version_get_id_by_name(base_version.0) {
            Some(base) => base,
            None => {
                return Err(VsError::VersionNotFound);
            },
        };
        match self.inner.branch_get_id_by_name(br_name.0) {
            Some(br) => self.inner.version_rebase_by_branch(base, br),
            None => Err(VsError::BranchNotFound),
        }
    }

    /// The names of the versions of the default branch, oldest first.
    pub fn version_list(&self) -> (r: Result<Vec<VersionNameOwned>, VsError>)
        requires
            self.wf(),
        ensures
            match self@.version_list_by_branch(self@.default_branch) {
                Ok(names) => r is Ok && version_names_view(r->Ok_0@) == names,
                Err(e) => r == Err::<Vec<VersionNameOwned>, VsError>(e),
            },
    {
        self.inner.version_list()
    }

    /// The names of the versions of the branch called `br_name`, oldest
    /// first.
    pub fn version_list_by_branch(&self, br_name: BranchName<'_>) -> (r: Result<
        Vec<VersionNameOwned>,
        VsError,
    >)
        requires
            self.wf(),
        ensures
            match on_branch(self@, br_name.0@, |b: u64| self@.version_list_by_branch(b)) {
                Ok(names) => r is Ok && version_names_view(r->Ok_0@) == names,
                Err(e) => r == Err::<Vec<VersionNameOwned>, VsError>(e),
            },
    {
        match self.inner.branch_get_id_by_name(br_name.0) {
            Some(br) => self.inner.version_list_by_branch(br),
            None => Err(VsError::BranchNotFound),
        }
    }

    /// The names of all recorded versions, oldest first.
    pub fn version_list_globally(&self) -> (names: Vec<VersionNameOwned>)
        requires
            self.wf(),
        ensures
            version_names_view(names@) == self@.version_list_globally(),
    {
        self.inner.version_list_globally()
    }

    /// Whether anything was written at the version called `ver_name`.
    pub fn version_has_change_set(&self, ver_name: VersionName<'_>) -> (r: Result<bool, VsError>)
        requires
            self.wf(),
        ensures
            r == on_version(self@, ver_name.0@, |v: u64| self@.version_has_change_set(v)),
    {
        match self.inner.version_get_id_by_name(ver_name.0) {
            Some(ver) => self.inner.version_has_change_set(ver),
            None => Err(VsError::VersionNotFound),
        }
    }

    /// Forgets every version that no branch sees, with what was written at
    /// it.
    pub fn version_clean_up_globally(&mut self) -> (r: Result<(), VsError>)
        requires
            old(self).wf(),
        ensures
            final(self).wf(),
            r is Ok,
            final(self)@ == old(self)@.version_clean_up_globally(),
    {
        self.inner.version_clean_up_globally()
    }

    /// Forgets the version called `ver_name` everywhere: no branch sees it
    /// any more, and what was written at it is gone. Reads that went through
    /// this version find what older versions wrote.
    pub fn version_revert_globally(&mut self, ver_name: VersionName<'_>) -> (r: Result<(), VsError>)
        requires
            old(self).wf(),
        ensures
            final(self).wf(),
            outcome_is(
                on_version(
                    old(self)@,
                    ver_name.0@,
                    |v: u64| old(self)@.version_revert_globally(v),
                ),
                old(self)@,
                final(self)@,
                r,
            ),
    {
        match self.inner.version_get_id_by_name(ver_name.0) {
            Some(ver) => self.inner.version_revert_globally(ver),
            None => Err(VsError::VersionNotFound),
        }
    }

    /// The identifiers behind an optional branch name and an optional
    /// version name.
    pub open spec fn resolve_names(
        s: VsState,
        br_name: Option<BranchName<'_>>,
        ver_name: Option<VersionName<'_>>,
    ) -> Result<(Option<u64>, Option<u64>), VsError> {
        let br = match br_name {
            Some(n) => s.branch_id(n.0@),
            None => None,
        };
        let ver = match ver_name {
            Some(n) => s.version_id(n.0@),
            None => None,
        };
        if br_name is Some && br is None {
            Err(VsError::BranchNotFound)
        } else if ver_name is Some && ver is None {
            Err(VsError::VersionNotFound)
        } else {
            Ok((br, ver))
        }
    }

    /// The root hash of the Merkle-Patricia trie, over Keccak-256, of what
    /// was written at a version: the keys of its change set with the values
    /// written. The version is the one named, or else the newest of the
    /// branch named, or else the newest of the default branch.
    pub fn version_chgset_trie_root(
        &self,
        br_name: Option<BranchName<'_>>,
        ver_name: Option<VersionName<'_>>,
    ) -> (r: Result<Vec<u8>, VsError>)
        requires
            self.wf(),
        ensures
            match Self::resolve_names(self@, br_name, ver_name) {
                Ok((br, ver)) => match self@.resolve_version(br, ver) {
                    Ok(v) => r is Ok && r->Ok_0@ == trie_root_of(self@.change_entries(v)),
                    Err(e) => r == Err::<Vec<u8>, VsError>(e),
                },
                Err(e) => r == Err::<Vec<u8>, VsError>(e),
            },
    {
        let br = match br_name {
            Some(n) => match self.inner.branch_get_id_by_name(n.0) {
                Some(br) => Some(br),
                None => {
                    return Err(VsError::BranchNotFound);
                },
            },
            None => None,
        };
        let ver = match ver_name {
            Some(n) => match self.inner.version_get_id_by_name(n.0) {
                Some(ver) => Some(ver),
                None => {
                    return Err(VsError::VersionNotFound);
                },
            },
            None => None,
        };
        self.inner.version_chgset_trie_root(br, ver)
    }

    /// The keys written at a version, each with the value written, in
    /// lexicographic order of the keys: what `version_chgset_trie_root`
    /// hashes.
    pub fn version_chgset_entries(
        &self,
        br_name: Option<BranchName<'_>>,
        ver_name: Option<VersionName<'_>>,
    ) -> (r: Result<Vec<(Vec<u8>, Vec<u8>)>, VsError>)
        requires
            self.wf(),
        ensures
            match Self::resolve_names(self@, br_name, ver_name) {
                Ok((br, ver)) => match self@.resolve_version(br, ver) {
                    Ok(v) => r is Ok && entries_view(r->Ok_0@) == self@.change_entries(v),
                    Err(e) => r == Err::<Vec<(Vec<u8>, Vec<u8>)>, VsError>(e),
                },
                Err(e) => r == Err::<Vec<(Vec<u8>, Vec<u8>)>, VsError>(e),
            },
    {
        let br = match br_name {
            Some(n) => match self.inner.branch_get_id_by_name(n.0) {
                Some(br) => Some(br),
                None => {
                    return Err(VsError::BranchNotFound);
                },
            },
            None => None,
        };
        let ver = match ver_name {
            Some(n) => match self.inner.version_get_id_by_name(n.0) {
                Some(ver) => Some(ver),
                None => {
                    return Err(VsError::VersionNotFound);
                },
            },
            None => None,
        };
        self.inner.version_chgset_entries(br, ver)
    }

    /// Creates the branch `br_name` from the newest version of the default
    /// branch, and the version `ver_name` on it. With `force`, a branch of
    /// that name that exists already is removed first.
    pub fn branch_create(&mut self, br_name: BranchName<'_>, ver_name: VersionName<'_>, force: bool)
        -> (r: Result<(), VsError>)
        requires
            old(self).wf(),
        ensures
            final(self).wf(),
            outcome_is(
                old(self)@.branch_new_at_head(
                    br_name.0@,
                    Some(ver_name.0@),
                    old(self)@.default_branch,
                    force,
                ),
                old(self)@,
                final(self)@,
                r,
            ),
    {
        self.inner.branch_create(br_name.0, ver_name.0, force)
    }

    /// What creating a branch from the branch called `base` gives: a refusal
    /// where there is no such branch.
    pub open spec fn on_base_branch(
        s: VsState,
        base: Seq<u8>,
        op: spec_fn(u64) -> Result<VsState, VsError>,
    ) -> Result<VsState, VsError> {
        match s.branch_id(base) {
            Some(b) => op(b),
            None => Err(VsError::BaseBranchNotFound),
        }
    }

    /// Creates the branch `br_name` from the newest version of the branch
    /// called `base_br_name`, and the version `ver_name` on it.
    pub fn branch_create_by_base_branch(
        &mut self,
        br_name: BranchName<'_>,
        ver_name: VersionName<'_>,
        base_br_name: ParentBranchName<'_>,
        force: bool,
    ) -> (r: Result<(), VsError>)
        requires
            old(self).wf(),
        ensures
            final(self).wf(),
            outcome_is(
                Self::on_base_branch(
                    old(self)@,
                    base_br_name.0@,
                    |b: u64|
                        old(self)@.branch_new_at_head(br_name.0@, Some(ver_name.0@), b, force),
                ),
                old(self)@,
                final(self)@,
                r,
            ),
    {
        match self.inner.branch_get_id_by_name(base_br_name.0) {
            Some(base) => self.inner.branch_create_by_base_branch(
                br_name.0,
                ver_name.0,
                base,
                force,
            ),
            None => Err(VsError::BaseBranchNotFound),
        }
    }

    /// Creates the branch `br_name` from the version called `base_ver_name`
    /// of the branch called `base_br_name`, and the version `ver_name` on
    /// it. The new branch sees the versions of the base branch up to and
    /// including the base version.
    pub fn branch_create_by_base_branch_version(
        &mut self,
        br_name: BranchName<'_>,
        ver_name: VersionName<'_>,
        base_br_name: ParentBranchName<'_>,
        base_ver_name: VersionName<'_>,
        force: bool,
    ) -> (r: Result<(), VsError>)
        requires
            old(self).wf(),
        ensures
            final(self).wf(),
            outcome_is(
                Self::on_base_branch(
                    old(self)@,
                    base_br_name.0@,
                    |b: u64|
                        on_version(
                            old(self)@,
                            base_ver_name.0@,
                            |v: u64|
                                old(self)@.branch_new(
                                    br_name.0@,
                                    Some(ver_name.0@),
                                    b,
                                    Some(v),
                                    force,
                                ),
                        ),
                ),
                old(self)@,
                final(self)@,
                r,
            ),
    {
        let base = match self.inner.branch_get_id_by_name(base_br_name.0) {
            Some(base) => base,
            None => {
                return Err(VsError::BaseBranchNotFound);
            },
        };
        match self.inner.version_get_id_by_name(base_ver_name.0) {
            Some(base_ver) => self.inner.branch_create_by_base_branch_version(
                br_name.0,
                ver_name.0,
                base,
                base_ver,
                force,
            ),
            None => Err(VsError::VersionNotFound),
        }
    }

    /// Creates the branch `br_name` from the newest version of the default
    /// branch, without a version of its own. Create a version on the new
    /// branch before writing to it: until then a write goes to a version
    /// that the default branch sees too.
    pub fn branch_create_without_new_version(&mut self, br_name: BranchName<'_>, force: bool) -> (r:
        Result<(), VsError>)
        requires
            old(self).wf(),
        ensures
            final(self).wf(),
            outcome_is(
                old(self)@.branch_new_at_head(br_name.0@, None, old(self)@.default_branch, force),
                old(self)@,
                final(self)@,
                r,
            ),
    {
        self.inner.branch_create_without_new_version(br_name.0, force)
    }

    /// Creates the branch `br_name` from the newest version of the branch
    /// called `base_br_name`, without a version of its own.
    pub fn branch_create_by_base_branch_without_new_version(
        &mut self,
        br_name: BranchName<'_>,
        base_br_name: ParentBranchName<'_>,
        force: bool,
    ) -> (r: Result<(), VsError>)
        requires
            old(self).wf(),
        ensures
            final(self).wf(),
            outcome_is(
                Self::on_base_branch(
                    old(self)@,
                    base_br_name.0@,
                    |b: u64| old(self)@.branch_new_at_head(br_name.0@, None, b, force),
                ),
                old(self)@,
                final(self)@,
                r,
            ),
    {
        match self.inner.branch_get_id_by_name(base_br_name.0) {
            Some(base) => self.inner.branch_create_by_base_branch_without_new_version(
                br_name.0,
                base,
                force,
            ),
            None => Err(VsError::BaseBranchNotFound),
        }
    }

    /// Creates the branch `br_name` from the version called `base_ver_name`
    /// of the branch called `base_br_name`, without a version of its own.
    pub fn branch_create_by_base_branch_version_without_new_version(
        &mut self,
        br_name: BranchName<'_>,
        base_br_name: ParentBranchName<'_>,
        base_ver_name: VersionName<'_>,
        force: bool,
    ) -> (r: Result<(), VsError>)
        requires
            old(self).wf(),
        ensures
            final(self).wf(),
            outcome_is(
                Self::on_base_branch(
                    old(self)@,
                    base_br_name.0@,
                    |b: u64|
                        on_version(
                            old(self)@,
                            base_ver_name.0@,
                            |v: u64| old(self)@.branch_new(br_name.0@, None, b, Some(v), force),
                        ),
                ),
                old(self)@,
                final(self)@,
                r,
            ),
    {
        let base = match self.inner.branch_get_id_by_name(base_br_name.0) {
            Some(base) => base,
            None => {
                return Err(VsError::BaseBranchNotFound);
            },
        };
        match self.inner.version_get_id_by_name(base_ver_name.0) {
            Some(base_ver) => self.inner.branch_create_by_base_branch_version_without_new_version(
                br_name.0,
                base,
                base_ver,
                force,
            ),
            None => Err(VsError::VersionNotFound),
        }
    }

    /// Whether there is a branch of that name.
    pub fn branch_exists(&self, br_name: BranchName<'_>) -> (b: bool)
        requires
            self.wf(),
        ensures
            b == self@.branch_id(br_name.0@) is Some,
    {
        self.inner.branch_get_id_by_name(br_name.0).is_some()
    }

    /// Whether there is a branch of that name that sees at least one
    /// version.
    pub fn branch_has_versions(&self, br_name: BranchName<'_>) -> (b: bool)
        requires
            self.wf(),
        ensures
            b == (match self@.branch_id(br_name.0@) {
                Some(br) => self@.branch_has_versions(br),
                None => false,
            }),
    {
        match self.inner.branch_get_id_by_name(br_name.0) {
            Some(br) => self.inner.branch_has_versions(br),
            None => false,
        }
    }

    /// Removes the branch called `br_name`. The versions that it saw stay
    /// recorded until the versions that no branch sees are cleaned up.
    pub fn branch_remove(&mut self, br_name: BranchName<'_>) -> (r: Result<(), VsError>)
        requires
            old(self).wf(),
        ensures
            final(self).wf(),
            outcome_is(
                on_branch(old(self)@, br_name.0@, |b: u64| old(self)@.branch_remove(b)),
                old(self)@,
                final(self)@,
                r,
            ),
    {
        match self.inner.branch_get_id_by_name(br_name.0) {
            Some(br) => self.inner.branch_remove(br),
            None => Err(VsError::BranchNotFound),
        }
    }

    /// The identifiers of the branches called `names`; nothing where one of
    /// the names is unknown.
    pub open spec fn branch_ids(s: VsState, names: Seq<BranchName<'_>>) -> Option<Set<u64>> {
        if forall|i: int| 0 <= i < names.len() ==> s.branch_id(#[trigger] names[i].0@) is Some {
            Some(
                Set::new(
                    |b: u64|
                        exists|i: int|
                            0 <= i < names.len() && s.branch_id(#[trigger] names[i].0@) == Some(b),
                ),
            )
        } else {
            None
        }
    }

    /// Removes every branch that is not named in `br_names`, and then
    /// forgets every version that no branch sees. Nothing happens where one
    /// of the names is unknown.
    pub fn branch_keep_only(&mut self, br_names: &[BranchName<'_>]) -> (r: Result<(), VsError>)
        requires
            old(self).wf(),
        ensures
            final(self).wf(),
            match Self::branch_ids(old(self)@, br_names@) {
                Some(keep) => r is Ok && final(self)@ == old(self)@.branch_keep_only(keep),
                None => r == Err::<(), VsError>(VsError::BranchNotFound) && final(self)@ == old(
                    self,
                )@,
            },
    {
        let mut ids: Vec<u64> = Vec::new();
        let mut i: usize = 0;
        while i < br_names.len()
            invariant
                self.wf(),
                self == old(self),
                i <= br_names@.len(),
                ids@.len() == i,
                forall|j: int|
                    0 <= j < i ==> self@.branch_id(#[trigger] br_names@[j].0@) == Some(ids@[j]),
            decreases br_names@.len() - i,
        {
            match self.inner.branch_get_id_by_name(br_names[i].0) {
                Some(br) => {
                    ids.push(br);
                },
                None => {
                    return Err(VsError::BranchNotFound);
                },
            }
            i += 1;
        }
        proof {
            let keep = Self::branch_ids(self@, br_names@)->0;
            assert(ids@.to_set() =~= keep) by {
                assert forall|b: u64| ids@.to_set().contains(b) <==> keep.contains(b) by {
                    if ids@.to_set().contains(b) {
                        assert(ids@.contains(b));
                        let j = choose|j: int| 0 <= j < ids@.len() && ids@[j] == b;
                        assert(self@.branch_id(br_names@[j].0@) == Some(b));
                    }
                    if keep.contains(b) {
                        let j = choose|j: int|
                            0 <= j < br_names@.len() && self@.branch_id(
                                #[trigger] br_names@[j].0@,
                            ) == Some(b);
                        assert(ids@[j] == b);
                        assert(ids@.contains(b));
                    }
                }
            }
        }
        self.inner.branch_keep_only(ids.as_slice())
    }

    /// The branch called `br_name` sees no version any more.
    pub fn branch_truncate(&mut self, br_name: BranchName<'_>) -> (r: Result<(), VsError>)
        requires
            old(self).wf(),
        ensures
            final(self).wf(),
            outcome_is(
                on_branch(old(self)@, br_name.0@, |b: u64| old(self)@.branch_truncate(b)),
                old(self)@,
                final(self)@,
                r,
            ),
    {
        match self.inner.branch_get_id_by_name(br_name.0) {
            Some(br) => self.inner.branch_truncate(br),
            None => Err(VsError::BranchNotFound),
        }
    }

    /// The branch called `br_name` no longer sees the versions that are
    /// newer than the version called `last_ver_name`.
    pub fn branch_truncate_to(&mut self, br_name: BranchName<'_>, last_ver_name: VersionName<'_>)
        -> (r: Result<(), VsError>)
        requires
            old(self).wf(),
        ensures
            final(self).wf(),
            outcome_is(
                on_branch(
                    old(self)@,
                    br_name.0@,
                    |b: u64|
                        on_version(
                            old(self)@,
                            last_ver_name.0@,
                            |v: u64| old(self)@.branch_truncate_to(b, v),
                        ),
                ),
                old(self)@,
                final(self)@,
                r,
            ),
    {
        let br = match self.inner.branch_get_id_by_name(br_name.0) {
            Some(br) => br,
            None => {
                return Err(VsError::BranchNotFound);
            },
        };
        match self.inner.version_get_id_by_name(last_ver_name.0) {
            Some(last) => self.inner.branch_truncate_to(br, last),
            None => Err(VsError::VersionNotFound),
        }
    }

    /// The branch called `br_name` no longer sees its newest version.
    pub fn branch_pop_version(&mut self, br_name: BranchName<'_>) -> (r: Result<(), VsError>)
        requires
            old(self).wf(),
        ensures
            final(self).wf(),
            outcome_is(
                on_branch(old(self)@, br_name.0@, |b: u64| old(self)@.branch_pop_version(b)),
                old(self)@,
                final(self)@,
                r,
            ),
    {
        match self.inner.branch_get_id_by_name(br_name.0) {
            Some(br) => self.inner.branch_pop_version(br),
            None => Err(VsError::BranchNotFound),
        }
    }

    /// What merging the branch called `src` into the branch called `dst`
    /// gives.
    pub open spec fn merge_by_names(s: VsState, src: Seq<u8>, dst: Seq<u8>, force: bool) -> Result<
        VsState,
        VsError,
    > {
        match s.branch_id(src) {
            Some(a) => match s.branch_id(dst) {
                Some(b) => s.branch_merge(a, b, force),
                None => Err(VsError::TargetBranchNotFound),
            },
            None => Err(VsError::BranchNotFound),
        }
    }

    /// The branch called `target_br_name` comes to see every version that
    /// the branch called `br_name` sees. This is refused where the target
    /// has a newest version that the source does not see.
    pub fn branch_merge_to(&mut self, br_name: BranchName<'_>, target_br_name: BranchName<'_>) -> (r:
        Result<(), VsError>)
        requires
            old(self).wf(),
        ensures
            final(self).wf(),
            outcome_is(
                Self::merge_by_names(old(self)@, br_name.0@, target_br_name.0@, false),
                old(self)@,
                final(self)@,
                r,
            ),
    {
        let src = match self.inner.branch_get_id_by_name(br_name.0) {
            Some(br) => br,
            None => {
                return Err(VsError::BranchNotFound);
            },
        };
        match self.inner.branch_get_id_by_name(target_br_name.0) {
            Some(dst) => self.inner.branch_merge_to(src, dst),
            None => Err(VsError::TargetBranchNotFound),
        }
    }

    /// The branch called `target_br_name` comes to see every version that
    /// the branch called `br_name` sees, even where the target has versions
    /// of its own. Reads on the target may then find other values than
    /// before.
    pub fn branch_merge_to_force(
        &mut self,
        br_name: BranchName<'_>,
        target_br_name: BranchName<'_>,
    ) -> (r: Result<(), VsError>)
        requires
            old(self).wf(),
        ensures
            final(self).wf(),
            outcome_is(
                Self::merge_by_names(old(self)@, br_name.0@, target_br_name.0@, true),
                old(self)@,
                final(self)@,
                r,
            ),
    {
        let src = match self.inner.branch_get_id_by_name(br_name.0) {
            Some(br) => br,
            None => {
                return Err(VsError::BranchNotFound);
            },
        };
        match self.inner.branch_get_id_by_name(target_br_name.0) {
            Some(dst) => self.inner.branch_merge_to_force(src, dst),
            None => Err(VsError::TargetBranchNotFound),
        }
    }

    /// Makes the branch called `br_name` the default branch.
    pub fn branch_set_default(&mut self, br_name: BranchName<'_>) -> (r: Result<(), VsError>)
        requires
            old(self).wf(),
        ensures
            final(self).wf(),
            outcome_is(
                on_branch(old(self)@, br_name.0@, |b: u64| old(self)@.branch_set_default(b)),
                old(self)@,
                final(self)@,
                r,
            ),
    {
        match self.inner.branch_get_id_by_name(br_name.0) {
            Some(br) => self.inner.branch_set_default(br),
            None => Err(VsError::BranchNotFound),
        }
    }

    /// Whether nothing was written at any version of the branch called
    /// `br_name`.
    pub fn branch_is_empty(&self, br_name: BranchName<'_>) -> (r: Result<bool, VsError>)
        requires
            self.wf(),
        ensures
            r == on_branch(self@, br_name.0@, |b: u64| self@.branch_is_empty(b)),
    {
        match self.inner.branch_get_id_by_name(br_name.0) {
            Some(br) => self.inner.branch_is_empty(br),
            None => Err(VsError::BranchNotFound),
        }
    }

    /// The names of all branches in lexicographic order.
    pub fn branch_list(&self) -> (names: Vec<BranchNameOwned>)
        requires
            self.wf(),
        ensures
            branch_names_view(names@) == self@.branch_list(),
    {
        self.inner.branch_list()
    }

    /// Whether the default branch exists. It does until it is removed.
    pub fn branch_default_exists(&self) -> (b: bool)
        requires
            self.wf(),
        ensures
            b == self@.branch_exists(self@.default_branch),
    {
        self.inner.branch_exists(self.inner.branch_get_default())
    }

    /// The name of the default branch, which must exist.
    pub fn branch_get_default(&self) -> (name: BranchNameOwned)
        requires
            self.wf(),
            self@.branch_exists(self@.default_branch),
        ensures
            name.0@ == self@.br_id_to_name[self@.default_branch],
    {
        self.inner.branch_get_default_name()
    }

    /// The branches called `branch_1` and `branch_2` trade names: what was
    /// read under one name is read under the other from now on. A default
    /// branch that is one of the two keeps its name.
    pub fn branch_swap(&mut self, branch_1: BranchName<'_>, branch_2: BranchName<'_>) -> (r: Result<
        (),
        VsError,
    >)
        requires
            old(self).wf(),
        ensures
            final(self).wf(),
            outcome_is(
                old(self)@.branch_swap(branch_1.0@, branch_2.0@),
                old(self)@,
                final(self)@,
                r,
            ),
    {
        self.inner.branch_swap(branch_1.0, branch_2.0)
    }

    /// Shortens the history that all branches in use have in common. Of the
    /// versions that they share from their start, the oldest and the newest
    /// `reserved_ver_num` stay (without a number:
    /// `RESERVED_VERSION_NUM_DEFAULT`); the ones between are folded into the
    /// oldest and forgotten. What a branch reads at its newest version stays
    /// as it was.
    pub fn prune(&mut self, reserved_ver_num: Option<usize>) -> (r: Result<(), VsError>)
        requires
            old(self).wf(),
        ensures
            final(self).wf(),
            outcome_is(old(self)@.prune(reserved_ver_num), old(self)@, final(self)@, r),
    {
        self.inner.prune(reserved_ver_num)
    }

    /// The stored form of the map: the default branch, the names, the
    /// versions of each branch and what each version wrote. A map rebuilt
    /// from it reads, for every key as of every version of every branch,
    /// what this map reads.
    pub fn to_parts(&self) -> (parts: MapxRawVsWithoutDerivedFields)
        requires
            self.wf(),
        ensures
            parts.wf(),
            parts.consistent(),
            parts.state() == stored_form(self@),
    {
        self.inner.to_parts()
    }

    /// Rebuilds a map from its stored form. The names of the identifiers,
    /// the key set of each version and the history of each key are derived
    /// from the stored indices. This is refused where the stored indices
    /// contradict one another.
    pub fn from_parts(parts: MapxRawVsWithoutDerivedFields) -> (r: Result<MapxRawVs, VsError>)
        requires
            parts.wf(),
        ensures
            match r {
                Ok(m) => parts.consistent() && m.wf() && m@ == parts.state(),
                Err(e) => e == VsError::CorruptedIndex && !parts.consistent(),
            },
    {
        match VsBackend::from_parts(parts) {
            Ok(inner) => Ok(MapxRawVs { inner }),
            Err(e) => Err(e),
        }
    }
}

} // verus!
