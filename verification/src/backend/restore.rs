//! Storing a map and rebuilding it from its stored form.

use super::{key_sets_view, layers_view, VsBackend};
use crate::common::{VsError, INITIAL_BRANCH_ID, NULL_ID};
use crate::idmap::{IdMap, IdSet};
use crate::keymap::{KeyMap, KeySet};
use crate::order::{
    first_of, key_among, lemma_first_of_below, lemma_first_of_none, lemma_first_of_step,
    lemma_key_among_all, lemma_key_among_step, lemma_key_not_among, lists_ids, lists_keys,
};
use crate::stored::{
    ids_within, invert, next_id, one_to_one, written_keys, written_layers, wrote,
    lemma_stored_form_inv, stored_form, wrote_among, MapxRawVsWithoutDerivedFields,
};
use vstd::prelude::*;

verus! {

/// The key sets and the histories that the change sets `cs` describe: for
/// each version the keys that it wrote, and for each key the value that each
/// version wrote to it.
fn rebuild(cs: &IdMap<KeyMap<Vec<u8>>>) -> (r: (IdMap<KeySet>, KeyMap<IdMap<Vec<u8>>>))
    requires
        cs.wf(),
        forall|v: u64| #[trigger] cs@.contains_key(v) ==> cs@[v].wf(),
    ensures
        r.0.wf(),
        forall|v: u64| #[trigger] r.0@.contains_key(v) ==> r.0@[v].wf(),
        r.1.wf(),
        forall|k: Seq<u8>| #[trigger] r.1@.contains_key(k) ==> r.1@[k].wf(),
        key_sets_view(r.0@) == written_keys(cs@),
        layers_view(r.1@) == written_layers(cs@),
{
    let mut chgsets: IdMap<KeySet> = IdMap::new();
    let mut lkv: KeyMap<IdMap<Vec<u8>>> = KeyMap::new();
    let n = cs.len();
    let mut i: usize = 0;
    proof {
        cs.lemma_ids();
        lemma_first_of_none(cs.ids());
    }
    let ghost ids = cs.ids();
    while i < n
        invariant
            cs.wf(),
            forall|v: u64| #[trigger] cs@.contains_key(v) ==> cs@[v].wf(),
            ids == cs.ids(),
            lists_ids(ids, cs@.dom()),
            n == ids.len(),
            i <= n,
            chgsets.wf(),
            forall|v: u64| #[trigger] chgsets@.contains_key(v) ==> chgsets@[v].wf(),
            lkv.wf(),
            forall|k: Seq<u8>| #[trigger] lkv@.contains_key(k) ==> lkv@[k].wf(),
            forall|v: u64| chgsets@.contains_key(v) <==> first_of(ids, i as int).contains(v),
            forall|v: u64| #[trigger]
                chgsets@.contains_key(v) ==> chgsets@[v]@.dom() == cs@[v]@.dom(),
            forall|k: Seq<u8>| #[trigger]
                lkv@.contains_key(k) <==> wrote_among(cs@, first_of(ids, i as int), k),
            forall|k: Seq<u8>, v: u64|
                lkv@.contains_key(k) ==> (#[trigger] lkv@[k]@.contains_key(v) <==> first_of(
                    ids,
                    i as int,
                ).contains(v) && wrote(cs@, v, k)),
            forall|k: Seq<u8>, v: u64|
                lkv@.contains_key(k) && #[trigger] lkv@[k]@.contains_key(v) ==> lkv@[k]@[v]@
                    == cs@[v]@[k]@,
        decreases n - i,
    {
        let cur = cs.id_at(i);
        let chg = cs.value_at(i);
        let ghost done = first_of(ids, i as int);
        let mut keyset: KeySet = KeyMap::new();
        let m = chg.len();
        let mut j: usize = 0;
        proof {
            chg.lemma_keys();
            lemma_first_of_below(ids, i as int);
        }
        let ghost q = chg.keys();
        while j < m
            invariant
                cs.wf(),
                chg.wf(),
                cs@.contains_key(cur),
                chg == cs@[cur],
                q == chg.keys(),
                lists_keys(q, chg@.dom()),
                m == q.len(),
                j <= m,
                !done.contains(cur),
                keyset.wf(),
                lkv.wf(),
                forall|k: Seq<u8>| #[trigger] lkv@.contains_key(k) ==> lkv@[k].wf(),
                forall|k: Seq<u8>| #[trigger] keyset@.contains_key(k) <==> key_among(q, j as int, k),
                forall|k: Seq<u8>| #[trigger]
                    lkv@.contains_key(k) <==> wrote_among(cs@, done, k) || key_among(
                        q,
                        j as int,
                        k,
                    ),
                forall|k: Seq<u8>, v: u64|
                    lkv@.contains_key(k) ==> (#[trigger] lkv@[k]@.contains_key(v) <==> (
                    done.contains(v) && wrote(cs@, v, k)) || (v == cur && key_among(
                        q,
                        j as int,
                        k,
                    ))),
                forall|k: Seq<u8>, v: u64|
                    lkv@.contains_key(k) && #[trigger] lkv@[k]@.contains_key(v) ==> lkv@[k]@[v]@
                        == cs@[v]@[k]@,
            decreases m - j,
        {
            let key = chg.key_at(j);
            let value = chg.value_at(j).clone();
            let ghost kk = key@;
            let ghost mid = lkv;
            let ghost mid_set = keyset;
            proof {
                assert(q.contains(kk));
                lemma_key_not_among(q, j as int);
            }
            keyset.insert(key.as_slice(), ());
            match lkv.position(key.as_slice()) {
                Some(at) => {
                    let mut hist = lkv.replace_at(at, IdMap::new());
                    hist.insert(cur, value);
                    lkv.replace_at(at, hist);
                },
                None => {
                    let mut hist: IdMap<Vec<u8>> = IdMap::new();
                    hist.insert(cur, value);
                    lkv.insert(key.as_slice(), hist);
                },
            }
            proof {
                assert forall|k: Seq<u8>| #[trigger] keyset@.contains_key(k) <==> key_among(
                    q,
                    j + 1,
                    k,
                ) by {
                    lemma_key_among_step(q, j as int, k);
                    assert(keyset@.contains_key(k) <==> mid_set@.contains_key(k) || k == kk);
                }
                assert forall|k: Seq<u8>| #[trigger]
                    lkv@.contains_key(k) <==> wrote_among(cs@, done, k) || key_among(
                        q,
                        j + 1,
                        k,
                    ) by {
                    lemma_key_among_step(q, j as int, k);
                    assert(lkv@.contains_key(k) <==> mid@.contains_key(k) || k == kk);
                }
                assert forall|k: Seq<u8>, v: u64| lkv@.contains_key(k) implies (
                #[trigger] lkv@[k]@.contains_key(v) <==> (done.contains(v) && wrote(cs@, v, k)) || (
                v == cur && key_among(q, j + 1, k))) by {
                    lemma_key_among_step(q, j as int, k);
                    if k != kk {
                        assert(mid@.contains_key(k));
                        assert(lkv@[k] == mid@[k]);
                    } else if mid@.contains_key(k) {
                        assert(lkv@[k]@ == mid@[k]@.insert(cur, value));
                    } else {
                        assert(!wrote_among(cs@, done, k));
                        if done.contains(v) && wrote(cs@, v, k) {
                            assert(wrote_among(cs@, done, k));
                        }
                    }
                }
                assert forall|k: Seq<u8>, v: u64|
                    lkv@.contains_key(k) && #[trigger] lkv@[k]@.contains_key(v) implies lkv@[k]@[v]@
                    == cs@[v]@[k]@ by {
                    if k != kk {
                        assert(mid@.contains_key(k));
                        assert(lkv@[k] == mid@[k]);
                    } else if mid@.contains_key(k) {
                        assert(lkv@[k]@ == mid@[k]@.insert(cur, value));
                        if v != cur {
                            assert(mid@[k]@.contains_key(v));
                        }
                    }
                }
            }
            j += 1;
        }
        let ghost old_chgsets = chgsets;
        chgsets.insert(cur, keyset);
        proof {
            lemma_first_of_step(ids, i as int);
            let after = first_of(ids, i + 1);
            assert forall|k: Seq<u8>| key_among(q, m as int, k) <==> wrote(cs@, cur, k) by {
                lemma_key_among_all(q, chg@.dom(), k);
            }
            assert forall|v: u64| #[trigger] chgsets@.contains_key(v) implies chgsets@[v]@.dom()
                == cs@[v]@.dom() by {
                if v == cur {
                    assert(chgsets@[v]@.dom() =~= cs@[v]@.dom()) by {
                        assert forall|k: Seq<u8>| chgsets@[v]@.dom().contains(k)
                            <==> cs@[v]@.dom().contains(k) by {
                            lemma_key_among_all(q, chg@.dom(), k);
                        }
                    }
                } else {
                    assert(old_chgsets@.contains_key(v));
                }
            }
            assert forall|k: Seq<u8>| #[trigger] lkv@.contains_key(k) <==> wrote_among(
                cs@,
                after,
                k,
            ) by {
                if wrote_among(cs@, done, k) {
                    let v = choose|v: u64| done.contains(v) && wrote(cs@, v, k);
                    assert(after.contains(v) && wrote(cs@, v, k));
                }
                if wrote(cs@, cur, k) {
                    assert(after.contains(cur) && wrote(cs@, cur, k));
                }
                if wrote_among(cs@, after, k) {
                    let v = choose|v: u64| after.contains(v) && wrote(cs@, v, k);
                    if v != cur {
                        assert(done.contains(v) && wrote(cs@, v, k));
                    }
                }
            }
        }
        i += 1;
    }
    proof {
        let all = first_of(ids, n as int);
        assert forall|v: u64| all.contains(v) <==> cs@.contains_key(v) by {
            if all.contains(v) {
                let t = choose|t: int| 0 <= t < n && ids[t] == v;
                assert(ids.contains(v));
            }
            if cs@.contains_key(v) {
                assert(ids.contains(v));
                let t = choose|t: int| 0 <= t < n && ids[t] == v;
                assert(0 <= t < n && ids[t] == v);
            }
        }
        assert(key_sets_view(chgsets@) =~= written_keys(cs@));
        let got = layers_view(lkv@);
        let want = written_layers(cs@);
        assert forall|k: Seq<u8>| got.contains_key(k) <==> want.contains_key(k) by {
            if wrote_among(cs@, all, k) {
                let v = choose|v: u64| all.contains(v) && wrote(cs@, v, k);
                assert(wrote(cs@, v, k));
            }
            if exists|v: u64| wrote(cs@, v, k) {
                let v = choose|v: u64| wrote(cs@, v, k);
                assert(all.contains(v) && wrote(cs@, v, k));
            }
        }
        assert forall|k: Seq<u8>| got.contains_key(k) implies #[trigger] got[k] == want[k] by {
            assert forall|v: u64| got[k].contains_key(v) <==> want[k].contains_key(v) by {
                assert(lkv@[k]@.contains_key(v) <==> all.contains(v) && wrote(cs@, v, k));
            }
            assert(got[k] =~= want[k]);
        }
        assert(got =~= want);
    }
    (chgsets, lkv)
}

impl VsBackend {
    /// Rebuilds a map from its stored form: the names of the identifiers,
    /// the key set of each version and the history of each key are derived
    /// from the stored indices. This is refused where the stored indices
    /// contradict one another.
    pub fn from_parts(parts: MapxRawVsWithoutDerivedFields) -> (r: Result<VsBackend, VsError>)
        requires
            parts.wf(),
        ensures
            match r {
                Ok(m) => parts.consistent() && m.wf() && m@ == parts.state(),
                Err(e) => e == VsError::CorruptedIndex && !parts.consistent(),
            },
    {
        let ghost want = parts.state();
        let ghost cs = parts.ver_to_change_set@;
        let br_id_to_name = match invert(&parts.br_name_to_br_id) {
            Some(m) => m,
            None => {
                proof {
                    if one_to_one(parts.br_name_to_br_id@) {
                        let nm = choose|nm: Seq<u8>|
                            parts.br_name_to_br_id@.contains_key(nm) && (
                            #[trigger] parts.br_name_to_br_id@[nm] == NULL_ID
                                || parts.br_name_to_br_id@[nm] == u64::MAX);
                        let id = parts.br_name_to_br_id@[nm];
                        assert(want.br_id_to_name.contains_key(id));
                        if want.inv() {
                            assert(want.br_to_vers.contains_key(id));
                        }
                    }
                }
                return Err(VsError::CorruptedIndex);
            },
        };
        let ver_id_to_name = match invert(&parts.ver_name_to_ver_id) {
            Some(m) => m,
            None => {
                proof {
                    if one_to_one(parts.ver_name_to_ver_id@) {
                        let nm = choose|nm: Seq<u8>|
                            parts.ver_name_to_ver_id@.contains_key(nm) && (
                            #[trigger] parts.ver_name_to_ver_id@[nm] == NULL_ID
                                || parts.ver_name_to_ver_id@[nm] == u64::MAX);
                        let id = parts.ver_name_to_ver_id@[nm];
                        assert(want.ver_id_to_name.contains_key(id));
                        if want.inv() {
                            assert(want.ver_to_chgset.contains_key(id));
                        }
                    }
                }
                return Err(VsError::CorruptedIndex);
            },
        };
        proof {
            assert(want.br_id_to_name == super::names_view(br_id_to_name@));
            assert(want.ver_id_to_name == super::names_view(ver_id_to_name@));
        }
        // each branch with a name has its versions, and the other way round
        if !ids_within(&br_id_to_name, &parts.br_to_its_vers) || !ids_within(
            &parts.br_to_its_vers,
            &br_id_to_name,
        ) {
            proof {
                if want.inv() {
                    assert forall|b: u64| br_id_to_name@.contains_key(b)
                        <==> parts.br_to_its_vers@.contains_key(b) by {
                        assert(want.br_id_to_name.contains_key(b) <==> want.br_to_vers.contains_key(
                            b,
                        ));
                    }
                }
            }
            return Err(VsError::CorruptedIndex);
        }
        if !ids_within(&ver_id_to_name, &parts.ver_to_change_set) || !ids_within(
            &parts.ver_to_change_set,
            &ver_id_to_name,
        ) {
            proof {
                if want.inv() {
                    assert forall|v: u64| ver_id_to_name@.contains_key(v)
                        <==> parts.ver_to_change_set@.contains_key(v) by {
                        assert(want.ver_id_to_name.contains_key(v)
                            <==> want.ver_to_chgset.contains_key(v));
                    }
                }
            }
            return Err(VsError::CorruptedIndex);
        }
        // every version that a branch sees is recorded
        let nb = parts.br_to_its_vers.len();
        let mut b: usize = 0;
        proof {
            parts.br_to_its_vers.lemma_ids();
        }
        let ghost brs = parts.br_to_its_vers.ids();
        while b < nb
            invariant
                parts.wf(),
                want == parts.state(),
                brs == parts.br_to_its_vers.ids(),
                lists_ids(brs, parts.br_to_its_vers@.dom()),
                nb == brs.len(),
                b <= nb,
                forall|j: int, v: u64|
                    0 <= j < b && #[trigger] parts.br_to_its_vers@[brs[j]]@.contains_key(v)
                        ==> parts.ver_to_change_set@.contains_key(v),
            decreases nb - b,
        {
            let vers = parts.br_to_its_vers.value_at(b);
            proof {
                assert(brs.contains(brs[b as int]));
            }
            if !ids_within(vers, &parts.ver_to_change_set) {
                proof {
                    let v = choose|v: u64|
                        vers@.contains_key(v) && !parts.ver_to_change_set@.contains_key(v);
                    assert(want.br_to_vers.contains_key(brs[b as int]));
                    assert(want.br_to_vers[brs[b as int]].contains(v));
                    assert(!want.ver_to_chgset.contains_key(v));
                }
                return Err(VsError::CorruptedIndex);
            }
            b += 1;
        }
        let next_br_id = next_id(&parts.br_to_its_vers, INITIAL_BRANCH_ID + 1);
        let next_ver_id = next_id(&parts.ver_to_change_set, NULL_ID + 1);
        let (ver_to_chgset, lkv) = rebuild(&parts.ver_to_change_set);
        let m = VsBackend {
            default_branch: parts.default_branch,
            br_name_to_id: parts.br_name_to_br_id,
            ver_name_to_id: parts.ver_name_to_ver_id,
            br_id_to_name,
            ver_id_to_name,
            br_to_vers: parts.br_to_its_vers,
            ver_to_chgset,
            lkv,
            next_br_id,
            next_ver_id,
        };
        proof {
            assert(m@ =~= want);
            assert(want.visible_versions_recorded()) by {
                assert forall|br: u64, v: u64|
                    want.br_to_vers.contains_key(br) && #[trigger] want.br_to_vers[br].contains(
                        v,
                    ) implies want.ver_to_chgset.contains_key(v) by {
                    assert(brs.contains(br));
                    let j = choose|j: int| 0 <= j < nb && brs[j] == br;
                    assert(m.br_to_vers@[brs[j]]@.contains_key(v));
                }
            }
            assert(want.entries_recorded());
            assert(want.changes_stored()) by {
                assert forall|v: u64, k: Seq<u8>|
                    want.ver_to_chgset.contains_key(v) && #[trigger] want.ver_to_chgset[v].contains(
                        k,
                    ) implies want.lkv.contains_key(k) && want.lkv[k].contains_key(v) by {
                    assert(wrote(cs, v, k));
                }
            }
            assert(crate::model::names_paired(want.br_name_to_id, want.br_id_to_name));
            assert(crate::model::names_paired(want.ver_name_to_id, want.ver_id_to_name));
            assert(want.inv());
        }
        Ok(m)
    }

    /// A copy of the versions of each branch.
    fn copy_branches(&self) -> (r: IdMap<IdSet>)
        requires
            self.wf(),
        ensures
            r.wf(),
            forall|b: u64| #[trigger] r@.contains_key(b) ==> r@[b].wf(),
            super::id_sets_view(r@) == self@.br_to_vers,
    {
        let mut r: IdMap<IdSet> = IdMap::new();
        let n = self.br_to_vers.len();
        let mut i: usize = 0;
        proof {
            self.br_to_vers.lemma_ids();
        }
        let ghost brs = self.br_to_vers.ids();
        while i < n
            invariant
                self.wf(),
                brs == self.br_to_vers.ids(),
                lists_ids(brs, self.br_to_vers@.dom()),
                n == brs.len(),
                i <= n,
                r.wf(),
                forall|b: u64| #[trigger] r@.contains_key(b) ==> r@[b].wf(),
                forall|b: u64| r@.contains_key(b) <==> first_of(brs, i as int).contains(b),
                forall|b: u64| #[trigger]
                    r@.contains_key(b) ==> r@[b]@.dom() == self.br_to_vers@[b]@.dom(),
            decreases n - i,
        {
            let br = self.br_to_vers.id_at(i);
            let vers = self.br_to_vers.value_at(i);
            let mut copy: IdSet = IdMap::new();
            proof {
                vers.lemma_ids();
            }
            super::branches::copy_from(&mut copy, vers, 0);
            let ghost before = r;
            proof {
                assert(copy@.dom() =~= vers@.dom()) by {
                    assert forall|v: u64| copy@.dom().contains(v) <==> vers@.dom().contains(v) by {
                        if copy@.contains_key(v) {
                            let j = choose|j: int|
                                0 <= j < vers.ids().len() && vers.ids()[j] == v;
                            assert(vers.ids().contains(v));
                        }
                        if vers@.contains_key(v) {
                            assert(vers.ids().contains(v));
                            let j = choose|j: int|
                                0 <= j < vers.ids().len() && vers.ids()[j] == v;
                            assert(0 <= j < vers.ids().len() && vers.ids()[j] == v);
                        }
                    }
                }
            }
            r.insert(br, copy);
            proof {
                lemma_first_of_step(brs, i as int);
                assert forall|b: u64| #[trigger] r@.contains_key(b) implies r@[b]@.dom()
                    == self.br_to_vers@[b]@.dom() by {
                    if b != br {
                        assert(before@.contains_key(b));
                    }
                }
            }
            i += 1;
        }
        proof {
            assert forall|b: u64| r@.contains_key(b) <==> self.br_to_vers@.contains_key(b) by {
                if first_of(brs, n as int).contains(b) {
                    let j = choose|j: int| 0 <= j < n && brs[j] == b;
                    assert(brs.contains(b));
                }
                if self.br_to_vers@.contains_key(b) {
                    assert(brs.contains(b));
                    let j = choose|j: int| 0 <= j < n && brs[j] == b;
                    assert(0 <= j < n && brs[j] == b);
                }
            }
            assert(super::id_sets_view(r@) =~= self@.br_to_vers);
        }
        r
    }

    /// The change set of each version, each key with the value written.
    fn copy_changes(&self) -> (r: IdMap<KeyMap<Vec<u8>>>)
        requires
            self.wf(),
        ensures
            r.wf(),
            forall|v: u64| #[trigger] r@.contains_key(v) ==> r@[v].wf(),
            forall|v: u64| r@.contains_key(v) <==> self@.ver_to_chgset.contains_key(v),
            forall|v: u64, k: Seq<u8>|
                r@.contains_key(v) ==> (#[trigger] r@[v]@.contains_key(k)
                    <==> self@.ver_to_chgset[v].contains(k)),
            forall|v: u64, k: Seq<u8>|
                r@.contains_key(v) && #[trigger] r@[v]@.contains_key(k) ==> r@[v]@[k]@
                    == self@.lkv[k][v],
    {
        let mut r: IdMap<KeyMap<Vec<u8>>> = IdMap::new();
        let n = self.ver_to_chgset.len();
        let mut i: usize = 0;
        proof {
            self.ver_to_chgset.lemma_ids();
        }
        let ghost ids = self.ver_to_chgset.ids();
        while i < n
            invariant
                self.wf(),
                ids == self.ver_to_chgset.ids(),
                lists_ids(ids, self.ver_to_chgset@.dom()),
                n == ids.len(),
                i <= n,
                r.wf(),
                forall|v: u64| #[trigger] r@.contains_key(v) ==> r@[v].wf(),
                forall|v: u64| r@.contains_key(v) <==> first_of(ids, i as int).contains(v),
                forall|v: u64, k: Seq<u8>|
                    r@.contains_key(v) ==> (#[trigger] r@[v]@.contains_key(k)
                        <==> self@.ver_to_chgset[v].contains(k)),
                forall|v: u64, k: Seq<u8>|
                    r@.contains_key(v) && #[trigger] r@[v]@.contains_key(k) ==> r@[v]@[k]@
                        == self@.lkv[k][v],
            decreases n - i,
        {
            let ver = self.ver_to_chgset.id_at(i);
            let chgset = self.ver_to_chgset.value_at(i);
            let mut copy: KeyMap<Vec<u8>> = KeyMap::new();
            let m = chgset.len();
            let mut j: usize = 0;
            proof {
                chgset.lemma_keys();
                assert(ids.contains(ver));
                assert(self@.ver_to_chgset.contains_key(ver));
                assert(chgset@.dom() == self@.ver_to_chgset[ver]);
            }
            let ghost q = chgset.keys();
            while j < m
                invariant
                    self.wf(),
                    chgset.wf(),
                    q == chgset.keys(),
                    lists_keys(q, chgset@.dom()),
                    self@.ver_to_chgset.contains_key(ver),
                    chgset@.dom() == self@.ver_to_chgset[ver],
                    m == q.len(),
                    j <= m,
                    copy.wf(),
                    forall|k: Seq<u8>| #[trigger] copy@.contains_key(k) <==> key_among(q, j as int, k),
                    forall|k: Seq<u8>| #[trigger]
                        copy@.contains_key(k) ==> copy@[k]@ == self@.lkv[k][ver],
                decreases m - j,
            {
                let key = chgset.key_at(j);
                proof {
                    assert(q.contains(key@));
                    assert(self@.ver_to_chgset[ver].contains(key@));
                    assert(self@.lkv.contains_key(key@) && self@.lkv[key@].contains_key(ver));
                }
                let hist = self.lkv.get(key.as_slice()).unwrap();
                let value = hist.get(ver).unwrap().clone();
                let ghost before = copy;
                copy.insert(key.as_slice(), value);
                proof {
                    assert forall|k: Seq<u8>| #[trigger] copy@.contains_key(k) <==> key_among(
                        q,
                        j + 1,
                        k,
                    ) by {
                        lemma_key_among_step(q, j as int, k);
                        assert(copy@.contains_key(k) <==> before@.contains_key(k) || k == key@);
                    }
                    assert forall|k: Seq<u8>| #[trigger] copy@.contains_key(k) implies copy@[k]@
                        == self@.lkv[k][ver] by {
                        if k != key@ {
                            assert(before@.contains_key(k));
                        }
                    }
                }
                j += 1;
            }
            let ghost before = r;
            proof {
                assert forall|k: Seq<u8>| copy@.contains_key(k) <==> self@.ver_to_chgset[ver].contains(
                    k,
                ) by {
                    lemma_key_among_all(q, chgset@.dom(), k);
                }
            }
            r.insert(ver, copy);
            proof {
                lemma_first_of_step(ids, i as int);
                assert forall|v: u64, k: Seq<u8>| r@.contains_key(v) implies (
                #[trigger] r@[v]@.contains_key(k) <==> self@.ver_to_chgset[v].contains(k)) by {
                    if v != ver {
                        assert(before@.contains_key(v));
                    }
                }
                assert forall|v: u64, k: Seq<u8>|
                    r@.contains_key(v) && #[trigger] r@[v]@.contains_key(k) implies r@[v]@[k]@
                    == self@.lkv[k][v] by {
                    if v != ver {
                        assert(before@.contains_key(v));
                    }
                }
            }
            i += 1;
        }
        proof {
            assert forall|v: u64| r@.contains_key(v) <==> self@.ver_to_chgset.contains_key(v) by {
                if first_of(ids, n as int).contains(v) {
                    let j = choose|j: int| 0 <= j < n && ids[j] == v;
                    assert(ids.contains(v));
                }
                if self@.ver_to_chgset.contains_key(v) {
                    assert(ids.contains(v));
                    let j = choose|j: int| 0 <= j < n && ids[j] == v;
                    assert(0 <= j < n && ids[j] == v);
                }
            }
        }
        r
    }

    /// The stored form of the map. A map rebuilt from it reads, for every
    /// key as of every version of every branch, what this map reads.
    pub fn to_parts(&self) -> (parts: MapxRawVsWithoutDerivedFields)
        requires
            self.wf(),
        ensures
            parts.wf(),
            parts.consistent(),
            parts.state() == stored_form(self@),
    {
        let parts = MapxRawVsWithoutDerivedFields {
            default_branch: self.default_branch,
            br_name_to_br_id: self.br_name_to_id.duplicate(),
            ver_name_to_ver_id: self.ver_name_to_id.duplicate(),
            br_to_its_vers: self.copy_branches(),
            ver_to_change_set: self.copy_changes(),
        };
        proof {
            let s = self@;
            let want = stored_form(s);
            let got = parts.state();
            lemma_stored_form_inv(s);
            assert(one_to_one(s.br_name_to_id)) by {
                assert forall|a: Seq<u8>, b: Seq<u8>|
                    s.br_name_to_id.contains_key(a) && s.br_name_to_id.contains_key(b)
                        && #[trigger] s.br_name_to_id[a] == #[trigger] s.br_name_to_id[b] implies a
                    == b by {
                    assert(s.br_id_to_name[s.br_name_to_id[a]] == a);
                    assert(s.br_id_to_name[s.br_name_to_id[b]] == b);
                }
            }
            assert(one_to_one(s.ver_name_to_id)) by {
                assert forall|a: Seq<u8>, b: Seq<u8>|
                    s.ver_name_to_id.contains_key(a) && s.ver_name_to_id.contains_key(b)
                        && #[trigger] s.ver_name_to_id[a] == #[trigger] s.ver_name_to_id[b] implies a
                    == b by {
                    assert(s.ver_id_to_name[s.ver_name_to_id[a]] == a);
                    assert(s.ver_id_to_name[s.ver_name_to_id[b]] == b);
                }
            }
            assert(got.br_id_to_name =~= want.br_id_to_name) by {
                assert forall|id: u64| got.br_id_to_name.contains_key(id)
                    <==> want.br_id_to_name.contains_key(id) by {
                    if want.br_id_to_name.contains_key(id) {
                        let nm = s.br_id_to_name[id];
                        assert(s.br_name_to_id.contains_key(nm) && s.br_name_to_id[nm] == id);
                    }
                }
                assert forall|id: u64| got.br_id_to_name.contains_key(id) implies
                    #[trigger] got.br_id_to_name[id] == want.br_id_to_name[id] by {
                    let nm = got.br_id_to_name[id];
                    assert(s.br_name_to_id.contains_key(nm) && s.br_name_to_id[nm] == id);
                }
            }
            assert(got.ver_id_to_name =~= want.ver_id_to_name) by {
                assert forall|id: u64| got.ver_id_to_name.contains_key(id)
                    <==> want.ver_id_to_name.contains_key(id) by {
                    if want.ver_id_to_name.contains_key(id) {
                        let nm = s.ver_id_to_name[id];
                        assert(s.ver_name_to_id.contains_key(nm) && s.ver_name_to_id[nm] == id);
                    }
                }
                assert forall|id: u64| got.ver_id_to_name.contains_key(id) implies
                    #[trigger] got.ver_id_to_name[id] == want.ver_id_to_name[id] by {
                    let nm = got.ver_id_to_name[id];
                    assert(s.ver_name_to_id.contains_key(nm) && s.ver_name_to_id[nm] == id);
                }
            }
            let cs = parts.ver_to_change_set@;
            assert(got.ver_to_chgset =~= want.ver_to_chgset) by {
                assert forall|v: u64| got.ver_to_chgset.contains_key(v) implies
                    #[trigger] got.ver_to_chgset[v] == want.ver_to_chgset[v] by {
                    assert(got.ver_to_chgset[v] =~= want.ver_to_chgset[v]);
                }
            }
            assert(got.lkv =~= want.lkv) by {
                assert forall|k: Seq<u8>| got.lkv.contains_key(k) <==> want.lkv.contains_key(k) by {
                    if got.lkv.contains_key(k) {
                        let v = choose|v: u64| wrote(cs, v, k);
                        assert(s.ver_to_chgset[v].contains(k));
                        assert(s.lkv.contains_key(k) && s.lkv[k].contains_key(v));
                    }
                    if want.lkv.contains_key(k) {
                        let v = choose|v: u64| s.lkv[k].contains_key(v);
                        assert(s.ver_to_chgset.contains_key(v) && s.ver_to_chgset[v].contains(k));
                        assert(wrote(cs, v, k));
                    }
                }
                assert forall|k: Seq<u8>| got.lkv.contains_key(k) implies #[trigger] got.lkv[k]
                    == want.lkv[k] by {
                    assert forall|v: u64| got.lkv[k].contains_key(v) <==> want.lkv[k].contains_key(
                        v,
                    ) by {
                        if wrote(cs, v, k) {
                            assert(s.ver_to_chgset[v].contains(k));
                        }
                        if s.lkv[k].contains_key(v) {
                            assert(s.ver_to_chgset.contains_key(v) && s.ver_to_chgset[v].contains(k));
                        }
                    }
                    assert(got.lkv[k] =~= want.lkv[k]);
                }
            }
            assert(parts.br_to_its_vers@.dom() =~= s.br_to_vers.dom());
            assert(parts.ver_to_change_set@.dom() =~= s.ver_to_chgset.dom());
            assert(got =~= want);
        }
        parts
    }

    /// A copy of the key set of each version.
    fn copy_change_sets(&self) -> (r: IdMap<KeySet>)
        requires
            self.wf(),
        ensures
            r.wf(),
            forall|v: u64| #[trigger] r@.contains_key(v) ==> r@[v].wf(),
            key_sets_view(r@) == self@.ver_to_chgset,
    {
        let mut r: IdMap<KeySet> = IdMap::new();
        let n = self.ver_to_chgset.len();
        let mut i: usize = 0;
        proof {
            self.ver_to_chgset.lemma_ids();
        }
        let ghost ids = self.ver_to_chgset.ids();
        while i < n
            invariant
                self.wf(),
                ids == self.ver_to_chgset.ids(),
                lists_ids(ids, self.ver_to_chgset@.dom()),
                n == ids.len(),
                i <= n,
                r.wf(),
                forall|v: u64| #[trigger] r@.contains_key(v) ==> r@[v].wf(),
                forall|v: u64| r@.contains_key(v) <==> first_of(ids, i as int).contains(v),
                forall|v: u64| #[trigger]
                    r@.contains_key(v) ==> r@[v]@.dom() == self.ver_to_chgset@[v]@.dom(),
            decreases n - i,
        {
            let ver = self.ver_to_chgset.id_at(i);
            let copy = copy_key_set(self.ver_to_chgset.value_at(i));
            let ghost before = r;
            r.insert(ver, copy);
            proof {
                lemma_first_of_step(ids, i as int);
                assert forall|v: u64| #[trigger] r@.contains_key(v) implies r@[v]@.dom()
                    == self.ver_to_chgset@[v]@.dom() by {
                    if v != ver {
                        assert(before@.contains_key(v));
                    }
                }
            }
            i += 1;
        }
        proof {
            assert forall|v: u64| r@.contains_key(v) <==> self.ver_to_chgset@.contains_key(v) by {
                if first_of(ids, n as int).contains(v) {
                    let j = choose|j: int| 0 <= j < n && ids[j] == v;
                    assert(ids.contains(v));
                }
                if self.ver_to_chgset@.contains_key(v) {
                    assert(ids.contains(v));
                    let j = choose|j: int| 0 <= j < n && ids[j] == v;
                    assert(0 <= j < n && ids[j] == v);
                }
            }
            assert(key_sets_view(r@) =~= self@.ver_to_chgset);
        }
        r
    }

    /// A copy of the history of each key.
    fn copy_layers(&self) -> (r: KeyMap<IdMap<Vec<u8>>>)
        requires
            self.wf(),
        ensures
            r.wf(),
            forall|k: Seq<u8>| #[trigger] r@.contains_key(k) ==> r@[k].wf(),
            layers_view(r@) == self@.lkv,
    {
        let mut r: KeyMap<IdMap<Vec<u8>>> = KeyMap::new();
        let n = self.lkv.len();
        let mut i: usize = 0;
        proof {
            self.lkv.lemma_keys();
        }
        let ghost q = self.lkv.keys();
        while i < n
            invariant
                self.wf(),
                q == self.lkv.keys(),
                lists_keys(q, self.lkv@.dom()),
                n == q.len(),
                i <= n,
                r.wf(),
                forall|k: Seq<u8>| #[trigger] r@.contains_key(k) ==> r@[k].wf(),
                forall|k: Seq<u8>| #[trigger] r@.contains_key(k) <==> key_among(q, i as int, k),
                forall|k: Seq<u8>| #[trigger]
                    r@.contains_key(k) ==> super::history_view(r@[k]) == super::history_view(
                        self.lkv@[k],
                    ),
            decreases n - i,
        {
            let key = self.lkv.key_at(i);
            let copy = copy_bytes_by_id(self.lkv.value_at(i));
            let ghost before = r;
            proof {
                assert(super::history_view(copy) =~= super::history_view(self.lkv@[key@]));
            }
            r.insert(key.as_slice(), copy);
            proof {
                assert forall|k: Seq<u8>| #[trigger] r@.contains_key(k) <==> key_among(
                    q,
                    i + 1,
                    k,
                ) by {
                    lemma_key_among_step(q, i as int, k);
                    assert(r@.contains_key(k) <==> before@.contains_key(k) || k == key@);
                }
                assert forall|k: Seq<u8>| #[trigger] r@.contains_key(k) implies super::history_view(
                    r@[k],
                ) == super::history_view(self.lkv@[k]) by {
                    if k != key@ {
                        assert(before@.contains_key(k));
                    }
                }
            }
            i += 1;
        }
        proof {
            assert forall|k: Seq<u8>| r@.contains_key(k) <==> self.lkv@.contains_key(k) by {
                lemma_key_among_all(q, self.lkv@.dom(), k);
            }
            assert(layers_view(r@) =~= self@.lkv);
        }
        r
    }

    /// A copy of the map that shares nothing with it: what is done to the
    /// one is not seen in the other.
    pub fn duplicate(&self) -> (r: Self)
        requires
            self.wf(),
        ensures
            r.wf(),
            r@ == self@,
    {
        let r = VsBackend {
            default_branch: self.default_branch,
            br_name_to_id: self.br_name_to_id.duplicate(),
            ver_name_to_id: self.ver_name_to_id.duplicate(),
            br_id_to_name: copy_bytes_by_id(&self.br_id_to_name),
            ver_id_to_name: copy_bytes_by_id(&self.ver_id_to_name),
            br_to_vers: self.copy_branches(),
            ver_to_chgset: self.copy_change_sets(),
            lkv: self.copy_layers(),
            next_br_id: self.next_br_id,
            next_ver_id: self.next_ver_id,
        };
        proof {
            assert(r@ =~= self@);
        }
        r
    }
}

/// A copy of a map from identifiers to byte strings.
fn copy_bytes_by_id(m: &IdMap<Vec<u8>>) -> (r: IdMap<Vec<u8>>)
    requires
        m.wf(),
    ensures
        r.wf(),
        super::names_view(r@) == super::names_view(m@),
{
    let mut r: IdMap<Vec<u8>> = IdMap::new();
    let n = m.len();
    let mut i: usize = 0;
    proof {
        m.lemma_ids();
    }
    let ghost ids = m.ids();
    while i < n
        invariant
            m.wf(),
            ids == m.ids(),
            lists_ids(ids, m@.dom()),
            n == ids.len(),
            i <= n,
            r.wf(),
            forall|v: u64| r@.contains_key(v) <==> first_of(ids, i as int).contains(v),
            forall|v: u64| #[trigger] r@.contains_key(v) ==> r@[v]@ == m@[v]@,
        decreases n - i,
    {
        let id = m.id_at(i);
        let value = m.value_at(i).clone();
        let ghost before = r;
        r.insert(id, value);
        proof {
            lemma_first_of_step(ids, i as int);
            assert forall|v: u64| #[trigger] r@.contains_key(v) implies r@[v]@ == m@[v]@ by {
                if v != id {
                    assert(before@.contains_key(v));
                }
            }
        }
        i += 1;
    }
    proof {
        assert forall|v: u64| r@.contains_key(v) <==> m@.contains_key(v) by {
            if first_of(ids, n as int).contains(v) {
                let j = choose|j: int| 0 <= j < n && ids[j] == v;
                assert(ids.contains(v));
            }
            if m@.contains_key(v) {
                assert(ids.contains(v));
                let j = choose|j: int| 0 <= j < n && ids[j] == v;
                assert(0 <= j < n && ids[j] == v);
            }
        }
        assert(super::names_view(r@) =~= super::names_view(m@));
    }
    r
}

/// A copy of a set of keys.
fn copy_key_set(s: &KeySet) -> (r: KeySet)
    requires
        s.wf(),
    ensures
        r.wf(),
        r@.dom() == s@.dom(),
{
    let mut r: KeySet = KeyMap::new();
    let n = s.len();
    let mut i: usize = 0;
    proof {
        s.lemma_keys();
    }
    let ghost q = s.keys();
    while i < n
        invariant
            s.wf(),
            q == s.keys(),
            lists_keys(q, s@.dom()),
            n == q.len(),
            i <= n,
            r.wf(),
            forall|k: Seq<u8>| #[trigger] r@.contains_key(k) <==> key_among(q, i as int, k),
        decreases n - i,
    {
        let key = s.key_at(i);
        let ghost before = r;
        r.insert(key.as_slice(), ());
        proof {
            assert forall|k: Seq<u8>| #[trigger] r@.contains_key(k) <==> key_among(q, i + 1, k) by {
                lemma_key_among_step(q, i as int, k);
                assert(r@.contains_key(k) <==> before@.contains_key(k) || k == key@);
            }
        }
        i += 1;
    }
    proof {
        assert forall|k: Seq<u8>| r@.dom().contains(k) <==> s@.dom().contains(k) by {
            lemma_key_among_all(q, s@.dom(), k);
        }
        assert(r@.dom() =~= s@.dom());
    }
    r
}

} // verus!
