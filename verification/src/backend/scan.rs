//! Walking the keys of the map in order: scans over a range of keys as of a
//! version of a branch, the nearest key at or after and at or before a given
//! one, and counting.

use super::VsBackend;
use crate::common::KeyBound;
use crate::model::{above_lower, below_upper, within, Limit, VsState};
use vstd::prelude::*;

verus! {

/// The pair of byte sequences that an optional owned pair holds.
pub open spec fn pair_opt(o: Option<(Vec<u8>, Vec<u8>)>) -> Option<(Seq<u8>, Seq<u8>)> {
    match o {
        Some(p) => Some((p.0@, p.1@)),
        None => None,
    }
}

/// The first member of a sequence of pairs, if there is one.
pub open spec fn first_entry(s: Seq<(Seq<u8>, Seq<u8>)>) -> Option<(Seq<u8>, Seq<u8>)> {
    if s.len() == 0 {
        None
    } else {
        Some(s.first())
    }
}

/// The last member of a sequence of pairs, if there is one.
pub open spec fn last_entry(s: Seq<(Seq<u8>, Seq<u8>)>) -> Option<(Seq<u8>, Seq<u8>)> {
    if s.len() == 0 {
        None
    } else {
        Some(s.last())
    }
}

/// What two runs of keys contribute, one after the other, is what the first
/// contributes followed by what the second contributes.
pub proof fn lemma_entries_split(
    s: VsState,
    a: Seq<Seq<u8>>,
    b: Seq<Seq<u8>>,
    br: u64,
    ver: u64,
    lower: Limit,
    upper: Limit,
)
    ensures
        s.entries_of(a + b, br, ver, lower, upper) == s.entries_of(a, br, ver, lower, upper)
            + s.entries_of(b, br, ver, lower, upper),
    decreases a.len(),
{
    if a.len() == 0 {
        assert(a + b =~= b);
        assert(s.entries_of(a, br, ver, lower, upper) + s.entries_of(b, br, ver, lower, upper)
            =~= s.entries_of(b, br, ver, lower, upper));
    } else {
        assert((a + b).drop_first() =~= a.drop_first() + b);
        lemma_entries_split(s, a.drop_first(), b, br, ver, lower, upper);
        let x = s.entry_of(a[0], br, ver, lower, upper);
        let y = s.entries_of(a.drop_first(), br, ver, lower, upper);
        let z = s.entries_of(b, br, ver, lower, upper);
        assert((x + y) + z =~= x + (y + z));
    }
}

/// A single key contributes its entry.
pub proof fn lemma_entries_one(
    s: VsState,
    k: Seq<u8>,
    br: u64,
    ver: u64,
    lower: Limit,
    upper: Limit,
)
    ensures
        s.entries_of(seq![k], br, ver, lower, upper) == s.entry_of(k, br, ver, lower, upper),
{
    let one = seq![k];
    assert(one.drop_first() =~= Seq::<Seq<u8>>::empty());
    assert(s.entries_of(one.drop_first(), br, ver, lower, upper) =~= Seq::<
        (Seq<u8>, Seq<u8>),
    >::empty());
    assert(s.entry_of(k, br, ver, lower, upper) + Seq::<(Seq<u8>, Seq<u8>)>::empty()
        =~= s.entry_of(k, br, ver, lower, upper));
}

/// Keys outside the bounds contribute nothing.
pub proof fn lemma_entries_outside(
    s: VsState,
    a: Seq<Seq<u8>>,
    br: u64,
    ver: u64,
    lower: Limit,
    upper: Limit,
)
    requires
        forall|i: int| 0 <= i < a.len() ==> !within(#[trigger] a[i], lower, upper),
    ensures
        s.entries_of(a, br, ver, lower, upper) == Seq::<(Seq<u8>, Seq<u8>)>::empty(),
    decreases a.len(),
{
    if a.len() > 0 {
        assert(!within(a[0], lower, upper));
        assert forall|i: int| 0 <= i < a.drop_first().len() implies !within(
            #[trigger] a.drop_first()[i],
            lower,
            upper,
        ) by {
            assert(a.drop_first()[i] == a[i + 1]);
        }
        lemma_entries_outside(s, a.drop_first(), br, ver, lower, upper);
        assert(Seq::<(Seq<u8>, Seq<u8>)>::empty() + Seq::<(Seq<u8>, Seq<u8>)>::empty() =~= Seq::<
            (Seq<u8>, Seq<u8>),
        >::empty());
    }
}

/// For keys within the bounds, the bounds make no difference.
pub proof fn lemma_entries_inside(
    s: VsState,
    a: Seq<Seq<u8>>,
    br: u64,
    ver: u64,
    lower: Limit,
    upper: Limit,
)
    requires
        forall|i: int| 0 <= i < a.len() ==> within(#[trigger] a[i], lower, upper),
    ensures
        s.entries_of(a, br, ver, lower, upper) == s.entries_of(
            a,
            br,
            ver,
            Limit::Unbounded,
            Limit::Unbounded,
        ),
    decreases a.len(),
{
    if a.len() > 0 {
        assert(within(a[0], lower, upper));
        assert forall|i: int| 0 <= i < a.drop_first().len() implies within(
            #[trigger] a.drop_first()[i],
            lower,
            upper,
        ) by {
            assert(a.drop_first()[i] == a[i + 1]);
        }
        lemma_entries_inside(s, a.drop_first(), br, ver, lower, upper);
    }
}

/// A run of keys contributes at most one entry for each key.
pub proof fn lemma_entries_len(
    s: VsState,
    a: Seq<Seq<u8>>,
    br: u64,
    ver: u64,
    lower: Limit,
    upper: Limit,
)
    ensures
        s.entries_of(a, br, ver, lower, upper).len() <= a.len(),
    decreases a.len(),
{
    if a.len() > 0 {
        lemma_entries_len(s, a.drop_first(), br, ver, lower, upper);
    }
}

/// A scan over a range of keys as of one version of one branch. It hands
/// out the keys that have a value there, each with its value, in key order
/// from the front and in reverse key order from the back.
#[derive(Debug)]
pub struct MapxRawVsIter<'a> {
    hdr: &'a VsBackend,
    front: usize,
    back: usize,
    br_id: u64,
    ver_id: u64,
}

impl<'a> MapxRawVsIter<'a> {
    /// The scan is over a well-formed map and its two ends have not crossed.
    pub closed spec fn wf(&self) -> bool {
        &&& self.hdr.wf()
        &&& self.front <= self.back <= self.hdr.lkv.keys().len()
    }

    /// What the scan has yet to hand out, in key order.
    pub closed spec fn remaining(&self) -> Seq<(Seq<u8>, Seq<u8>)> {
        self.hdr@.entries_of(
            self.hdr.lkv.keys().subrange(self.front as int, self.back as int),
            self.br_id,
            self.ver_id,
            Limit::Unbounded,
            Limit::Unbounded,
        )
    }

    /// The map that is scanned.
    pub closed spec fn source(&self) -> VsBackend {
        *self.hdr
    }

    /// There is never more left than fits a count.
    pub proof fn lemma_remaining_fits(&self)
        requires
            self.wf(),
        ensures
            self.remaining().len() <= usize::MAX,
    {
        lemma_entries_len(
            self.hdr@,
            self.hdr.lkv.keys().subrange(self.front as int, self.back as int),
            self.br_id,
            self.ver_id,
            Limit::Unbounded,
            Limit::Unbounded,
        );
    }

    /// The next key from the front that has a value, with its value.
    pub fn next(&mut self) -> (r: Option<(Vec<u8>, Vec<u8>)>)
        requires
            old(self).wf(),
        ensures
            final(self).wf(),
            final(self).source() == old(self).source(),
            pair_opt(r) == first_entry(old(self).remaining()),
            final(self).remaining() == (if r is Some {
                old(self).remaining().drop_first()
            } else {
                old(self).remaining()
            }),
    {
        let ghost keys = self.hdr.lkv.keys();
        let ghost s = self.hdr@;
        while self.front < self.back
            invariant
                self.wf(),
                self.hdr == old(self).hdr,
                self.br_id == old(self).br_id,
                self.ver_id == old(self).ver_id,
                self.back == old(self).back,
                keys == self.hdr.lkv.keys(),
                s == self.hdr@,
                self.remaining() == old(self).remaining(),
            decreases self.back - self.front,
        {
            let key = self.hdr.lkv.key_at(self.front);
            let found = self.hdr.get_by_branch_version(key.as_slice(), self.br_id, self.ver_id);
            proof {
                let run = keys.subrange(self.front as int, self.back as int);
                assert(run[0] == key@);
                assert(run.drop_first() =~= keys.subrange(self.front + 1, self.back as int));
            }
            self.front += 1;
            match found {
                Some(value) => {
                    proof {
                        assert(old(self).remaining() =~= seq![(key@, value@)] + self.remaining());
                        assert(self.remaining() =~= old(self).remaining().drop_first());
                    }
                    return Some((key.clone(), value));
                },
                None => {
                    proof {
                        assert(Seq::<(Seq<u8>, Seq<u8>)>::empty() + self.remaining()
                            =~= self.remaining());
                    }
                },
            }
        }
        proof {
            assert(keys.subrange(self.front as int, self.back as int) =~= Seq::<
                Seq<u8>,
            >::empty());
        }
        None
    }

    /// The next key from the back that has a value, with its value.
    pub fn next_back(&mut self) -> (r: Option<(Vec<u8>, Vec<u8>)>)
        requires
            old(self).wf(),
        ensures
            final(self).wf(),
            final(self).source() == old(self).source(),
            pair_opt(r) == last_entry(old(self).remaining()),
            final(self).remaining() == (if r is Some {
                old(self).remaining().drop_last()
            } else {
                old(self).remaining()
            }),
    {
        let ghost keys = self.hdr.lkv.keys();
        let ghost s = self.hdr@;
        while self.front < self.back
            invariant
                self.wf(),
                self.hdr == old(self).hdr,
                self.br_id == old(self).br_id,
                self.ver_id == old(self).ver_id,
                self.front == old(self).front,
                keys == self.hdr.lkv.keys(),
                s == self.hdr@,
                self.remaining() == old(self).remaining(),
            decreases self.back - self.front,
        {
            let key = self.hdr.lkv.key_at(self.back - 1);
            let found = self.hdr.get_by_branch_version(key.as_slice(), self.br_id, self.ver_id);
            proof {
                let run = keys.subrange(self.front as int, self.back as int);
                let shorter = keys.subrange(self.front as int, self.back - 1);
                assert(run =~= shorter + seq![key@]);
                lemma_entries_split(
                    s,
                    shorter,
                    seq![key@],
                    self.br_id,
                    self.ver_id,
                    Limit::Unbounded,
                    Limit::Unbounded,
                );
                lemma_entries_one(
                    s,
                    key@,
                    self.br_id,
                    self.ver_id,
                    Limit::Unbounded,
                    Limit::Unbounded,
                );
            }
            self.back -= 1;
            match found {
                Some(value) => {
                    proof {
                        assert(old(self).remaining() =~= self.remaining() + seq![(key@, value@)]);
                        assert(self.remaining() =~= old(self).remaining().drop_last());
                    }
                    return Some((key.clone(), value));
                },
                None => {
                    proof {
                        assert(self.remaining() + Seq::<(Seq<u8>, Seq<u8>)>::empty()
                            =~= self.remaining());
                    }
                },
            }
        }
        proof {
            assert(keys.subrange(self.front as int, self.back as int) =~= Seq::<
                Seq<u8>,
            >::empty());
        }
        None
    }
}

impl VsBackend {
    /// The position of the first key that is not before the lower end.
    fn lower_position(&self, lower: KeyBound<'_>) -> (n: usize)
        requires
            self.wf(),
        ensures
            n <= self.lkv.keys().len(),
            forall|j: int| 0 <= j < n ==> !above_lower(self.lkv.keys()[j], lower@),
            forall|j: int| n <= j < self.lkv.keys().len() ==> above_lower(self.lkv.keys()[j], lower@),
    {
        match lower {
            KeyBound::Unbounded => 0,
            KeyBound::Included(k) => {
                let n = self.lkv.count_below(k);
                n
            },
            KeyBound::Excluded(k) => {
                let n = self.lkv.count_upto(k);
                n
            },
        }
    }

    /// The position just after the last key that is not after the upper end.
    fn upper_position(&self, upper: KeyBound<'_>) -> (n: usize)
        requires
            self.wf(),
        ensures
            n <= self.lkv.keys().len(),
            forall|j: int| 0 <= j < n ==> below_upper(self.lkv.keys()[j], upper@),
            forall|j: int| n <= j < self.lkv.keys().len() ==> !below_upper(self.lkv.keys()[j], upper@),
    {
        match upper {
            KeyBound::Unbounded => self.lkv.len(),
            KeyBound::Included(k) => {
                let n = self.lkv.count_upto(k);
                n
            },
            KeyBound::Excluded(k) => {
                let n = self.lkv.count_below(k);
                n
            },
        }
    }

    /// A scan that hands out nothing.
    fn empty_scan(&self) -> (it: MapxRawVsIter<'_>)
        requires
            self.wf(),
        ensures
            it.wf(),
            it.source() == *self,
            it.remaining() == Seq::<(Seq<u8>, Seq<u8>)>::empty(),
    {
        let it = MapxRawVsIter {
            hdr: self,
            front: 0,
            back: 0,
            br_id: crate::common::NULL_ID,
            ver_id: crate::common::NULL_ID,
        };
        proof {
            assert(self.lkv.keys().subrange(0, 0) =~= Seq::<Seq<u8>>::empty());
        }
        it
    }

    /// A scan over the keys within the bounds, as of version `ver` of branch
    /// `br`.
    pub fn range_by_branch_version(
        &self,
        br: u64,
        ver: u64,
        lower: KeyBound<'_>,
        upper: KeyBound<'_>,
    ) -> (it: MapxRawVsIter<'_>)
        requires
            self.wf(),
        ensures
            it.wf(),
            it.source() == *self,
            it.remaining() == self@.range_by_branch_version(br, ver, lower@, upper@),
    {
        let lo = self.lower_position(lower);
        let up = self.upper_position(upper);
        let hi = if up < lo {
            lo
        } else {
            up
        };
        let it = MapxRawVsIter { hdr: self, front: lo, back: hi, br_id: br, ver_id: ver };
        proof {
            let keys = self.lkv.keys();
            assert(self@.lkv.dom() =~= self.lkv@.dom());
            let a = keys.subrange(0, lo as int);
            let b = keys.subrange(lo as int, hi as int);
            let c = keys.subrange(hi as int, keys.len() as int);
            assert(keys =~= a + (b + c));
            lemma_entries_split(self@, a, b + c, br, ver, lower@, upper@);
            lemma_entries_split(self@, b, c, br, ver, lower@, upper@);
            lemma_entries_outside(self@, a, br, ver, lower@, upper@);
            lemma_entries_outside(self@, c, br, ver, lower@, upper@);
            lemma_entries_inside(self@, b, br, ver, lower@, upper@);
            let e = self@.entries_of(b, br, ver, lower@, upper@);
            let none = Seq::<(Seq<u8>, Seq<u8>)>::empty();
            assert(none + (e + none) =~= e);
        }
        it
    }

    /// A scan over the keys within the bounds, at the newest version of
    /// branch `br`.
    pub fn range_by_branch(&self, br: u64, lower: KeyBound<'_>, upper: KeyBound<'_>) -> (it:
        MapxRawVsIter<'_>)
        requires
            self.wf(),
        ensures
            it.wf(),
            it.source() == *self,
            it.remaining() == self@.range_by_branch(br, lower@, upper@),
    {
        match self.head_of(br) {
            Some(h) => self.range_by_branch_version(br, h, lower, upper),
            None => self.empty_scan(),
        }
    }

    /// A scan over the keys within the bounds, at the newest version of the
    /// default branch.
    pub fn range(&self, lower: KeyBound<'_>, upper: KeyBound<'_>) -> (it: MapxRawVsIter<'_>)
        requires
            self.wf(),
        ensures
            it.wf(),
            it.source() == *self,
            it.remaining() == self@.range_by_branch(self@.default_branch, lower@, upper@),
    {
        self.range_by_branch(self.default_branch, lower, upper)
    }

    /// A scan over all keys, as of version `ver` of branch `br`.
    pub fn iter_by_branch_version(&self, br: u64, ver: u64) -> (it: MapxRawVsIter<'_>)
        requires
            self.wf(),
        ensures
            it.wf(),
            it.source() == *self,
            it.remaining() == self@.range_by_branch_version(
                br,
                ver,
                Limit::Unbounded,
                Limit::Unbounded,
            ),
    {
        self.range_by_branch_version(br, ver, KeyBound::Unbounded, KeyBound::Unbounded)
    }

    /// A scan over all keys, at the newest version of branch `br`.
    pub fn iter_by_branch(&self, br: u64) -> (it: MapxRawVsIter<'_>)
        requires
            self.wf(),
        ensures
            it.wf(),
            it.source() == *self,
            it.remaining() == self@.range_by_branch(br, Limit::Unbounded, Limit::Unbounded),
    {
        self.range_by_branch(br, KeyBound::Unbounded, KeyBound::Unbounded)
    }

    /// A scan over all keys, at the newest version of the default branch.
    pub fn iter(&self) -> (it: MapxRawVsIter<'_>)
        requires
            self.wf(),
        ensures
            it.wf(),
            it.source() == *self,
            it.remaining() == self@.range_by_branch(
                self@.default_branch,
                Limit::Unbounded,
                Limit::Unbounded,
            ),
    {
        self.range_by_branch(self.default_branch, KeyBound::Unbounded, KeyBound::Unbounded)
    }

    /// The first key at or after `key` that has a value as of version `ver`
    /// of branch `br`, with its value.
    pub fn get_ge_by_branch_version(&self, key: &[u8], br: u64, ver: u64) -> (r: Option<
        (Vec<u8>, Vec<u8>),
    >)
        requires
            self.wf(),
        ensures
            pair_opt(r) == first_entry(
                self@.range_by_branch_version(br, ver, Limit::Included(key@), Limit::Unbounded),
            ),
    {
        let mut it = self.range_by_branch_version(
            br,
            ver,
            KeyBound::Included(key),
            KeyBound::Unbounded,
        );
        it.next()
    }

    /// The first key at or after `key` that has a value at the newest
    /// version of branch `br`, with its value.
    pub fn get_ge_by_branch(&self, key: &[u8], br: u64) -> (r: Option<(Vec<u8>, Vec<u8>)>)
        requires
            self.wf(),
        ensures
            pair_opt(r) == first_entry(
                self@.range_by_branch(br, Limit::Included(key@), Limit::Unbounded),
            ),
    {
        let mut it = self.range_by_branch(br, KeyBound::Included(key), KeyBound::Unbounded);
        it.next()
    }

    /// The first key at or after `key` that has a value at the newest
    /// version of the default branch, with its value.
    pub fn get_ge(&self, key: &[u8]) -> (r: Option<(Vec<u8>, Vec<u8>)>)
        requires
            self.wf(),
        ensures
            pair_opt(r) == first_entry(
                self@.range_by_branch(
                    self@.default_branch,
                    Limit::Included(key@),
                    Limit::Unbounded,
                ),
            ),
    {
        self.get_ge_by_branch(key, self.default_branch)
    }

    /// The last key at or before `key` that has a value as of version `ver`
    /// of branch `br`, with its value.
    pub fn get_le_by_branch_version(&self, key: &[u8], br: u64, ver: u64) -> (r: Option<
        (Vec<u8>, Vec<u8>),
    >)
        requires
            self.wf(),
        ensures
            pair_opt(r) == last_entry(
                self@.range_by_branch_version(br, ver, Limit::Unbounded, Limit::Included(key@)),
            ),
    {
        let mut it = self.range_by_branch_version(
            br,
            ver,
            KeyBound::Unbounded,
            KeyBound::Included(key),
        );
        it.next_back()
    }

    /// The last key at or before `key` that has a value at the newest
    /// version of branch `br`, with its value.
    pub fn get_le_by_branch(&self, key: &[u8], br: u64) -> (r: Option<(Vec<u8>, Vec<u8>)>)
        requires
            self.wf(),
        ensures
            pair_opt(r) == last_entry(
                self@.range_by_branch(br, Limit::Unbounded, Limit::Included(key@)),
            ),
    {
        let mut it = self.range_by_branch(br, KeyBound::Unbounded, KeyBound::Included(key));
        it.next_back()
    }

    /// The last key at or before `key` that has a value at the newest
    /// version of the default branch, with its value.
    pub fn get_le(&self, key: &[u8]) -> (r: Option<(Vec<u8>, Vec<u8>)>)
        requires
            self.wf(),
        ensures
            pair_opt(r) == last_entry(
                self@.range_by_branch(
                    self@.default_branch,
                    Limit::Unbounded,
                    Limit::Included(key@),
                ),
            ),
    {
        self.get_le_by_branch(key, self.default_branch)
    }

    /// How many entries a scan hands out.
    fn count(it: MapxRawVsIter<'_>) -> (n: usize)
        requires
            it.wf(),
        ensures
            n == it.remaining().len(),
    {
        let mut it = it;
        let mut n: usize = 0;
        let ghost total = it.remaining().len();
        proof {
            it.lemma_remaining_fits();
        }
        loop
            invariant
                it.wf(),
                n + it.remaining().len() == total,
                total <= usize::MAX,
            ensures
                n == total,
            decreases it.remaining().len(),
        {
            match it.next() {
                Some(_) => {
                    n += 1;
                },
                None => {
                    break ;
                },
            }
        }
        n
    }

    /// How many keys have a value as of version `ver` of branch `br`. Every
    /// key of the map is looked at.
    pub fn len_by_branch_version(&self, br: u64, ver: u64) -> (n: usize)
        requires
            self.wf(),
        ensures
            n == self@.range_by_branch_version(br, ver, Limit::Unbounded, Limit::Unbounded).len(),
    {
        Self::count(self.iter_by_branch_version(br, ver))
    }

    /// How many keys have a value at the newest version of branch `br`.
    pub fn len_by_branch(&self, br: u64) -> (n: usize)
        requires
            self.wf(),
        ensures
            n == self@.range_by_branch(br, Limit::Unbounded, Limit::Unbounded).len(),
    {
        Self::count(self.iter_by_branch(br))
    }

    /// How many keys have a value at the newest version of the default
    /// branch.
    pub fn len(&self) -> (n: usize)
        requires
            self.wf(),
        ensures
            n == self@.range_by_branch(
                self@.default_branch,
                Limit::Unbounded,
                Limit::Unbounded,
            ).len(),
    {
        Self::count(self.iter())
    }
}

} // verus!
