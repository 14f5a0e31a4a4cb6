//! What of a map is kept when it is stored, and how a map is rebuilt from
//! it.

use crate::backend::id_sets_view;
use crate::common::{INITIAL_BRANCH_ID, NULL_ID};
use crate::idmap::{IdMap, IdSet};
use crate::keymap::KeyMap;
use crate::model::{head, VsState};
use crate::order::{lists_ids, lists_keys};
use crate::validity::lemma_head;
use vstd::prelude::*;

verus! {

/// The stored form of a map: the default branch and the indices from which
/// everything else is rebuilt. Each change set holds, with every key written
/// at the version, the value written.
#[derive(Clone, Debug)]
pub struct MapxRawVsWithoutDerivedFields {
    /// The default branch.
    pub default_branch: u64,
    /// Branch name to branch identifier.
    pub br_name_to_br_id: KeyMap<u64>,
    /// Version name to version identifier.
    pub ver_name_to_ver_id: KeyMap<u64>,
    /// For each branch, the versions that it sees.
    pub br_to_its_vers: IdMap<IdSet>,
    /// For each version, the keys written at it with the values written.
    pub ver_to_change_set: IdMap<KeyMap<Vec<u8>>>,
}

/// No two names have the same identifier.
pub open spec fn one_to_one(names: Map<Seq<u8>, u64>) -> bool {
    forall|a: Seq<u8>, b: Seq<u8>|
        names.contains_key(a) && names.contains_key(b) && #[trigger] names[a] == #[trigger] names[b]
            ==> a == b
}

/// The name of each identifier.
pub open spec fn inverse_of(names: Map<Seq<u8>, u64>) -> Map<u64, Seq<u8>> {
    Map::new(
        |id: u64| exists|n: Seq<u8>| names.contains_key(n) && #[trigger] names[n] == id,
        |id: u64| choose|n: Seq<u8>| names.contains_key(n) && #[trigger] names[n] == id,
    )
}

/// The keys written at each version.
pub open spec fn written_keys(cs: Map<u64, KeyMap<Vec<u8>>>) -> Map<u64, Set<Seq<u8>>> {
    Map::new(|v: u64| cs.contains_key(v), |v: u64| cs[v]@.dom())
}

/// Version `v` wrote key `k`.
pub open spec fn wrote(cs: Map<u64, KeyMap<Vec<u8>>>, v: u64, k: Seq<u8>) -> bool {
    cs.contains_key(v) && cs[v]@.contains_key(k)
}

/// The history of each key that some version wrote.
pub open spec fn written_layers(cs: Map<u64, KeyMap<Vec<u8>>>) -> Map<
    Seq<u8>,
    Map<u64, Seq<u8>>,
> {
    Map::new(
        |k: Seq<u8>| exists|v: u64| wrote(cs, v, k),
        |k: Seq<u8>| Map::new(|v: u64| wrote(cs, v, k), |v: u64| cs[v]@[k]@),
    )
}

/// Some version among `done` wrote key `k`.
pub open spec fn wrote_among(cs: Map<u64, KeyMap<Vec<u8>>>, done: Set<u64>, k: Seq<u8>) -> bool {
    exists|v: u64| done.contains(v) && wrote(cs, v, k)
}

/// The identifier after the greatest of `ids`, but `least` at least.
pub open spec fn next_after(ids: Set<u64>, least: u64) -> u64 {
    match head(ids) {
        Some(h) => if h + 1 > least {
            (h + 1) as u64
        } else {
            least
        },
        None => least,
    }
}

/// The state as it comes back after storing: a key without any entry is not
/// kept, and the identifiers to hand out next are the ones after the
/// greatest in use.
pub open spec fn stored_form(s: VsState) -> VsState {
    VsState {
        lkv: Map::new(
            |k: Seq<u8>| s.lkv.contains_key(k) && exists|v: u64| s.lkv[k].contains_key(v),
            |k: Seq<u8>| s.lkv[k],
        ),
        next_br_id: next_after(s.br_to_vers.dom(), (INITIAL_BRANCH_ID + 1) as u64),
        next_ver_id: next_after(s.ver_to_chgset.dom(), (NULL_ID + 1) as u64),
        ..s
    }
}

/// Storing keeps the state valid.
pub proof fn lemma_stored_form_inv(s: VsState)
    requires
        s.inv(),
    ensures
        stored_form(s).inv(),
{
    let t = stored_form(s);
    lemma_head(s.br_to_vers.dom());
    lemma_head(s.ver_to_chgset.dom());
    assert(t.entries_recorded()) by {
        assert forall|k: Seq<u8>, v: u64|
            t.lkv.contains_key(k) && #[trigger] t.lkv[k].contains_key(v) implies t.ver_to_chgset.contains_key(
            v,
        ) && t.ver_to_chgset[v].contains(k) by {
            assert(s.lkv[k].contains_key(v));
        }
    }
    assert(t.changes_stored()) by {
        assert forall|v: u64, k: Seq<u8>|
            t.ver_to_chgset.contains_key(v) && #[trigger] t.ver_to_chgset[v].contains(
                k,
            ) implies t.lkv.contains_key(k) && t.lkv[k].contains_key(v) by {
            assert(s.ver_to_chgset[v].contains(k));
            assert(s.lkv[k].contains_key(v));
        }
    }
    assert(t.visible_versions_recorded()) by {
        assert forall|b: u64, v: u64|
            t.br_to_vers.contains_key(b) && #[trigger] t.br_to_vers[b].contains(
                v,
            ) implies t.ver_to_chgset.contains_key(v) by {
            assert(s.br_to_vers[b].contains(v));
        }
    }
    assert forall|b: u64| #[trigger] t.br_to_vers.contains_key(b) implies NULL_ID < b
        < t.next_br_id by {
        assert(s.br_to_vers.dom().contains(b));
    }
    assert forall|v: u64| #[trigger] t.ver_to_chgset.contains_key(v) implies NULL_ID < v
        < t.next_ver_id by {
        assert(s.ver_to_chgset.dom().contains(v));
    }
}

/// What is read after storing is what was read before: every key reads, as
/// of every version of every branch, the value that it read.
pub proof fn law_storing_keeps_reads(s: VsState, key: Seq<u8>, br: u64, ver: u64)
    requires
        s.inv(),
    ensures
        stored_form(s).get_by_branch_version(key, br, ver) == s.get_by_branch_version(
            key,
            br,
            ver,
        ),
        stored_form(s).get_by_branch(key, br) == s.get_by_branch(key, br),
{
    assert(stored_form(s).history(key) =~= s.history(key));
}

impl MapxRawVsWithoutDerivedFields {
    /// The stored collections are in order.
    pub open spec fn wf(&self) -> bool {
        &&& self.br_name_to_br_id.wf()
        &&& self.ver_name_to_ver_id.wf()
        &&& self.br_to_its_vers.wf()
        &&& self.ver_to_change_set.wf()
        &&& forall|b: u64| #[trigger]
            self.br_to_its_vers@.contains_key(b) ==> self.br_to_its_vers@[b].wf()
        &&& forall|v: u64| #[trigger]
            self.ver_to_change_set@.contains_key(v) ==> self.ver_to_change_set@[v].wf()
    }

    /// The state that the stored form describes.
    pub open spec fn state(&self) -> VsState {
        VsState {
            default_branch: self.default_branch,
            br_name_to_id: self.br_name_to_br_id@,
            br_id_to_name: inverse_of(self.br_name_to_br_id@),
            ver_name_to_id: self.ver_name_to_ver_id@,
            ver_id_to_name: inverse_of(self.ver_name_to_ver_id@),
            br_to_vers: id_sets_view(self.br_to_its_vers@),
            ver_to_chgset: written_keys(self.ver_to_change_set@),
            lkv: written_layers(self.ver_to_change_set@),
            next_br_id: next_after(self.br_to_its_vers@.dom(), (INITIAL_BRANCH_ID + 1) as u64),
            next_ver_id: next_after(self.ver_to_change_set@.dom(), (NULL_ID + 1) as u64),
        }
    }

    /// The stored indices do not contradict one another: no two names share
    /// an identifier, and the state that they describe is valid.
    pub open spec fn consistent(&self) -> bool {
        &&& one_to_one(self.br_name_to_br_id@)
        &&& one_to_one(self.ver_name_to_ver_id@)
        &&& self.state().inv()
    }
}

/// The names of the identifiers of `names`, or nothing where two names share
/// an identifier or an identifier is one that none can be.
pub(crate) fn invert(names: &KeyMap<u64>) -> (r: Option<IdMap<Vec<u8>>>)
    requires
        names.wf(),
    ensures
        match r {
            Some(m) => m.wf() && one_to_one(names@) && crate::backend::names_view(m@) == inverse_of(
                names@,
            ) && forall|id: u64| m@.contains_key(id) ==> NULL_ID < id < u64::MAX,
            None => !one_to_one(names@) || exists|n: Seq<u8>|
                names@.contains_key(n) && (#[trigger] names@[n] == NULL_ID || names@[n]
                    == u64::MAX),
        },
{
    let mut m: IdMap<Vec<u8>> = IdMap::new();
    let n = names.len();
    let mut i: usize = 0;
    proof {
        names.lemma_keys();
    }
    let ghost q = names.keys();
    while i < n
        invariant
            names.wf(),
            q == names.keys(),
            lists_keys(q, names@.dom()),
            n == q.len(),
            i <= n,
            m.wf(),
            forall|id: u64|
                m@.contains_key(id) <==> exists|j: int| 0 <= j < i && names@[#[trigger] q[j]] == id,
            forall|j: int|
                0 <= j < i ==> m@.contains_key(names@[#[trigger] q[j]]) && m@[names@[q[j]]]@
                    == q[j],
            forall|id: u64| m@.contains_key(id) ==> NULL_ID < id < u64::MAX,
        decreases n - i,
    {
        let name = names.key_at(i);
        let id = *names.value_at(i);
        proof {
            assert(q.contains(q[i as int]));
        }
        if id == NULL_ID || id == u64::MAX {
            return None;
        }
        let ghost before = m;
        match m.insert(id, name.clone()) {
            Some(_) => {
                proof {
                    let j = choose|j: int| 0 <= j < i && names@[#[trigger] q[j]] == id;
                    assert(q.contains(q[j]));
                    crate::order::lemma_lex_asymmetric(q[j], q[i as int]);
                    assert(names@[q[j]] == names@[q[i as int]]);
                }
                return None;
            },
            None => {},
        }
        proof {
            assert forall|x: u64|
                m@.contains_key(x) <==> exists|j: int|
                    0 <= j < i + 1 && names@[#[trigger] q[j]] == x by {
                if m@.contains_key(x) {
                    if x == id {
                        assert(0 <= i < i + 1 && names@[q[i as int]] == x);
                    } else {
                        assert(before@.contains_key(x));
                        let j = choose|j: int| 0 <= j < i && names@[#[trigger] q[j]] == x;
                        assert(0 <= j < i + 1 && names@[q[j]] == x);
                    }
                }
                if exists|j: int| 0 <= j < i + 1 && names@[#[trigger] q[j]] == x {
                    let j = choose|j: int| 0 <= j < i + 1 && names@[#[trigger] q[j]] == x;
                    if j < i {
                        assert(before@.contains_key(x));
                    }
                }
            }
            assert forall|j: int| 0 <= j < i + 1 implies m@.contains_key(
                names@[#[trigger] q[j]],
            ) && m@[names@[q[j]]]@ == q[j] by {
                if j < i {
                    assert(before@.contains_key(names@[q[j]]));
                    assert(names@[q[j]] != id);
                }
            }
        }
        i += 1;
    }
    proof {
        assert(one_to_one(names@)) by {
            assert forall|a: Seq<u8>, b: Seq<u8>|
                names@.contains_key(a) && names@.contains_key(b) && #[trigger] names@[a]
                    == #[trigger] names@[b] implies a == b by {
                assert(q.contains(a));
                assert(q.contains(b));
                let x = choose|x: int| 0 <= x < n && q[x] == a;
                let y = choose|y: int| 0 <= y < n && q[y] == b;
                assert(m@[names@[q[x]]]@ == q[x]);
                assert(m@[names@[q[y]]]@ == q[y]);
            }
        }
        let inv = inverse_of(names@);
        let got = crate::backend::names_view(m@);
        assert forall|id: u64| got.contains_key(id) <==> inv.contains_key(id) by {
            if got.contains_key(id) {
                let j = choose|j: int| 0 <= j < n && names@[#[trigger] q[j]] == id;
                assert(q.contains(q[j]));
                assert(names@.contains_key(q[j]) && names@[q[j]] == id);
            }
            if inv.contains_key(id) {
                let nm = choose|nm: Seq<u8>| names@.contains_key(nm) && #[trigger] names@[nm] == id;
                assert(q.contains(nm));
                let j = choose|j: int| 0 <= j < n && q[j] == nm;
                assert(0 <= j < n && names@[q[j]] == id);
            }
        }
        assert forall|id: u64| got.contains_key(id) implies #[trigger] got[id] == inv[id] by {
            let nm = inv[id];
            assert(names@.contains_key(nm) && names@[nm] == id);
            assert(q.contains(nm));
            let j = choose|j: int| 0 <= j < n && q[j] == nm;
            assert(m@[names@[q[j]]]@ == q[j]);
        }
        assert(got =~= inv);
    }
    Some(m)
}

/// Whether every identifier of `a` is one of `b`.
pub(crate) fn ids_within<V, W>(a: &IdMap<V>, b: &IdMap<W>) -> (r: bool)
    requires
        a.wf(),
        b.wf(),
    ensures
        r <==> forall|id: u64| a@.contains_key(id) ==> b@.contains_key(id),
{
    let n = a.len();
    let mut i: usize = 0;
    proof {
        a.lemma_ids();
    }
    while i < n
        invariant
            a.wf(),
            b.wf(),
            lists_ids(a.ids(), a@.dom()),
            n == a.ids().len(),
            i <= n,
            forall|j: int| 0 <= j < i ==> b@.contains_key(a.ids()[j]),
        decreases n - i,
    {
        if !b.contains_key(a.id_at(i)) {
            return false;
        }
        i += 1;
    }
    proof {
        assert forall|id: u64| a@.contains_key(id) implies b@.contains_key(id) by {
            assert(a.ids().contains(id));
            let j = choose|j: int| 0 <= j < n && a.ids()[j] == id;
        }
    }
    true
}

/// The identifier after the greatest of `m`, but `least` at least. The
/// greatest must not be the greatest that there is.
pub(crate) fn next_id<V>(m: &IdMap<V>, least: u64) -> (r: u64)
    requires
        m.wf(),
        forall|id: u64| m@.contains_key(id) ==> id < u64::MAX,
    ensures
        r == next_after(m@.dom(), least),
        least <= r,
        forall|id: u64| m@.contains_key(id) ==> id < r,
{
    proof {
        m.lemma_ids();
        lemma_head(m@.dom());
    }
    match m.last_id() {
        Some(h) => {
            proof {
                let q = m.ids();
                assert(q.contains(q[q.len() - 1]));
                assert forall|u: u64| m@.dom().contains(u) implies u <= h by {
                    assert(q.contains(u));
                    let j = choose|j: int| 0 <= j < q.len() && q[j] == u;
                }
                crate::model::lemma_latest_upto_is(m@.dom(), u64::MAX, h);
            }
            if h + 1 > least {
                h + 1
            } else {
                least
            }
        },
        None => {
            proof {
                if let Some(h) = head(m@.dom()) {
                    assert(m.ids().contains(h));
                }
                assert forall|id: u64| m@.contains_key(id) implies id < least by {
                    assert(m.ids().contains(id));
                }
            }
            least
        },
    }
}

} // verus!
