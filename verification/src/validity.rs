//! Every operation of the model keeps the invariant of the state.

use crate::model::{above, head, lemma_latest_upto, names_paired, upto, VsState};
use vstd::prelude::*;

verus! {

/// A new map starts in a valid state.
pub proof fn lemma_initial_inv()
    ensures
        VsState::initial().inv(),
{
}

/// The newest version of a branch is one of its versions, and none of its
/// versions is newer; a branch without a newest version has no version.
pub proof fn lemma_head(s: Set<u64>)
    ensures
        match head(s) {
            Some(h) => s.contains(h) && forall|u: u64| s.contains(u) ==> u <= h,
            None => forall|u: u64| !s.contains(u),
        },
{
    lemma_latest_upto(s, u64::MAX);
}

/// A write keeps the state valid, where it goes to a version of the branch.
pub proof fn lemma_write_inv(s: VsState, key: Seq<u8>, value: Option<Seq<u8>>, br: u64, ver: u64)
    requires
        s.inv(),
        s.version_exists_on_branch(ver, br),
    ensures
        s.write(key, value, br, ver).0.inv(),
{
    let t = s.write(key, value, br, ver).0;
    if t != s {
        assert(s.ver_to_chgset.contains_key(ver));
        assert(t.entries_recorded()) by {
            assert forall|k: Seq<u8>, v: u64|
                t.lkv.contains_key(k) && #[trigger] t.lkv[k].contains_key(v) implies t.ver_to_chgset.contains_key(
                v,
            ) && t.ver_to_chgset[v].contains(k) by {
                if k == key && v != ver {
                    assert(s.lkv.contains_key(k) && s.lkv[k].contains_key(v));
                }
                if k != key {
                    assert(s.lkv.contains_key(k) && s.lkv[k].contains_key(v));
                }
            }
        }
        assert(t.changes_stored()) by {
            assert forall|v: u64, k: Seq<u8>|
                t.ver_to_chgset.contains_key(v) && #[trigger] t.ver_to_chgset[v].contains(
                    k,
                ) implies t.lkv.contains_key(k) && t.lkv[k].contains_key(v) by {
                if !(v == ver && k == key) {
                    assert(s.ver_to_chgset.contains_key(v) && s.ver_to_chgset[v].contains(k));
                }
            }
        }
    }
}

/// Writing to the newest version of a branch keeps the state valid.
pub proof fn law_write_keeps_valid(s: VsState, key: Seq<u8>, value: Option<Seq<u8>>, br: u64)
    requires
        s.inv(),
    ensures
        s.write_by_branch(key, value, br) is Ok ==> s.write_by_branch(key, value, br)->Ok_0.0.inv(),
{
    if s.write_by_branch(key, value, br) is Ok {
        lemma_head(s.br_to_vers[br]);
        lemma_write_inv(s, key, value, br, head(s.br_to_vers[br])->0);
    }
}

/// Creating a version keeps the state valid.
pub proof fn lemma_version_create_inv(s: VsState, name: Seq<u8>, br: u64)
    requires
        s.inv(),
    ensures
        s.version_create_by_branch(name, br) is Ok ==> s.version_create_by_branch(
            name,
            br,
        )->Ok_0.inv(),
{
    if s.version_create_by_branch(name, br) is Ok {
        let t = s.version_create_by_branch(name, br)->Ok_0;
        let id = s.next_ver_id;
        assert(!s.ver_to_chgset.contains_key(id));
        assert(!s.ver_id_to_name.contains_key(id));
        assert(t.visible_versions_recorded()) by {
            assert forall|b: u64, v: u64|
                t.br_to_vers.contains_key(b) && #[trigger] t.br_to_vers[b].contains(
                    v,
                ) implies t.ver_to_chgset.contains_key(v) by {
                if v != id {
                    assert(s.br_to_vers[b].contains(v));
                }
            }
        }
        assert(t.entries_recorded()) by {
            assert forall|k: Seq<u8>, v: u64|
                t.lkv.contains_key(k) && #[trigger] t.lkv[k].contains_key(v) implies t.ver_to_chgset.contains_key(
                v,
            ) && t.ver_to_chgset[v].contains(k) by {
                assert(s.lkv[k].contains_key(v));
            }
        }
        assert(t.changes_stored()) by {
            assert forall|v: u64, k: Seq<u8>|
                t.ver_to_chgset.contains_key(v) && #[trigger] t.ver_to_chgset[v].contains(
                    k,
                ) implies t.lkv.contains_key(k) && t.lkv[k].contains_key(v) by {
                assert(v != id);
                assert(s.ver_to_chgset[v].contains(k));
            }
        }
    }
}

/// Removing a branch keeps the state valid.
pub proof fn lemma_without_branch_inv(s: VsState, br: u64)
    requires
        s.inv(),
        s.br_to_vers.contains_key(br),
    ensures
        s.without_branch(br).inv(),
        !s.without_branch(br).br_name_to_id.contains_key(s.br_id_to_name[br]),
{
    let t = s.without_branch(br);
    assert(s.br_id_to_name.contains_key(br));
    assert(t.visible_versions_recorded()) by {
        assert forall|b: u64, v: u64|
            t.br_to_vers.contains_key(b) && #[trigger] t.br_to_vers[b].contains(
                v,
            ) implies t.ver_to_chgset.contains_key(v) by {
            assert(s.br_to_vers[b].contains(v));
        }
    }
}

/// Giving one branch a set of versions that are all recorded keeps the state
/// valid.
pub proof fn lemma_set_versions_inv(s: VsState, br: u64, vers: Set<u64>)
    requires
        s.inv(),
        s.br_to_vers.contains_key(br),
        forall|v: u64| vers.contains(v) ==> s.ver_to_chgset.contains_key(v),
    ensures
        (VsState { br_to_vers: s.br_to_vers.insert(br, vers), ..s }).inv(),
{
    let t = VsState { br_to_vers: s.br_to_vers.insert(br, vers), ..s };
    assert(t.visible_versions_recorded()) by {
        assert forall|b: u64, v: u64|
            t.br_to_vers.contains_key(b) && #[trigger] t.br_to_vers[b].contains(
                v,
            ) implies t.ver_to_chgset.contains_key(v) by {
            if b != br {
                assert(s.br_to_vers[b].contains(v));
            }
        }
    }
}

/// Emptying a branch keeps the state valid.
pub proof fn lemma_branch_truncate_inv(s: VsState, br: u64)
    requires
        s.inv(),
    ensures
        s.branch_truncate(br) is Ok ==> s.branch_truncate(br)->Ok_0.inv(),
{
    if s.branch_truncate(br) is Ok {
        lemma_set_versions_inv(s, br, Set::empty());
    }
}

/// Cutting a branch back keeps the state valid.
pub proof fn lemma_branch_truncate_to_inv(s: VsState, br: u64, last: u64)
    requires
        s.inv(),
    ensures
        s.branch_truncate_to(br, last) is Ok ==> s.branch_truncate_to(br, last)->Ok_0.inv(),
{
    if s.branch_truncate_to(br, last) is Ok {
        assert forall|v: u64| upto(s.br_to_vers[br], last).contains(
            v,
        ) implies s.ver_to_chgset.contains_key(v) by {
            assert(s.br_to_vers[br].contains(v));
        }
        lemma_set_versions_inv(s, br, upto(s.br_to_vers[br], last));
    }
}

/// Dropping the newest version of a branch keeps the state valid.
pub proof fn lemma_branch_pop_version_inv(s: VsState, br: u64)
    requires
        s.inv(),
    ensures
        s.branch_pop_version(br) is Ok ==> s.branch_pop_version(br)->Ok_0.inv(),
{
    if s.branch_pop_version(br) is Ok {
        if let Some(h) = head(s.br_to_vers[br]) {
            assert forall|v: u64| s.br_to_vers[br].remove(h).contains(
                v,
            ) implies s.ver_to_chgset.contains_key(v) by {
                assert(s.br_to_vers[br].contains(v));
            }
            lemma_set_versions_inv(s, br, s.br_to_vers[br].remove(h));
        }
    }
}

/// A merge keeps the state valid.
pub proof fn lemma_branch_merge_inv(s: VsState, src: u64, dst: u64, force: bool)
    requires
        s.inv(),
    ensures
        s.branch_merge(src, dst, force) is Ok ==> s.branch_merge(src, dst, force)->Ok_0.inv(),
{
    if s.branch_merge(src, dst, force) is Ok {
        let both = s.br_to_vers[dst].union(s.br_to_vers[src]);
        assert forall|v: u64| both.contains(v) implies s.ver_to_chgset.contains_key(v) by {
            if s.br_to_vers[dst].contains(v) {
            } else {
                assert(s.br_to_vers[src].contains(v));
            }
        }
        lemma_set_versions_inv(s, dst, both);
    }
}

/// Trading the names of two branches keeps the state valid.
pub proof fn lemma_branch_swap_inv(s: VsState, n1: Seq<u8>, n2: Seq<u8>)
    requires
        s.inv(),
    ensures
        s.branch_swap(n1, n2) is Ok ==> s.branch_swap(n1, n2)->Ok_0.inv(),
{
    if s.branch_swap(n1, n2) is Ok {
        let t = s.branch_swap(n1, n2)->Ok_0;
        let i1 = s.br_name_to_id[n1];
        let i2 = s.br_name_to_id[n2];
        assert(s.br_id_to_name.contains_key(i1));
        assert(s.br_id_to_name.contains_key(i2));
        assert forall|n: Seq<u8>| #[trigger] t.br_name_to_id.contains_key(n) implies t.br_id_to_name.contains_key(
        t.br_name_to_id[n]) && t.br_id_to_name[t.br_name_to_id[n]] == n by {
            if n != n1 && n != n2 {
                assert(s.br_name_to_id.contains_key(n));
            }
        }
        assert forall|i: u64| #[trigger] t.br_id_to_name.contains_key(i) implies t.br_name_to_id.contains_key(
        t.br_id_to_name[i]) && t.br_name_to_id[t.br_id_to_name[i]] == i by {
            if i != i1 && i != i2 {
                assert(s.br_id_to_name.contains_key(i));
            }
        }
        assert forall|b: u64| t.br_id_to_name.contains_key(b) <==> t.br_to_vers.contains_key(b) by {
        }
    }
}

/// The state that is cleared for a new branch is valid and has no branch of
/// that name, unless one exists and may not be removed.
pub proof fn lemma_cleared_for_inv(s: VsState, name: Seq<u8>, force: bool)
    requires
        s.inv(),
    ensures
        s.cleared_for(name, force).inv(),
        force ==> !s.cleared_for(name, force).br_name_to_id.contains_key(name),
{
    if force && s.br_name_to_id.contains_key(name) {
        assert(s.br_id_to_name.contains_key(s.br_name_to_id[name]));
        lemma_without_branch_inv(s, s.br_name_to_id[name]);
    }
}

/// Adding a branch under a free name, seeing recorded versions only, keeps
/// the state valid.
pub proof fn lemma_with_new_branch_inv(s: VsState, name: Seq<u8>, seen: Set<u64>)
    requires
        s.inv(),
        !s.br_name_to_id.contains_key(name),
        s.next_br_id < u64::MAX,
        forall|v: u64| seen.contains(v) ==> s.ver_to_chgset.contains_key(v),
    ensures
        s.with_new_branch(name, seen).inv(),
{
    let t = s.with_new_branch(name, seen);
    let id = s.next_br_id;
    assert(!s.br_to_vers.contains_key(id));
    assert(!s.br_id_to_name.contains_key(id));
    assert(t.visible_versions_recorded()) by {
        assert forall|b: u64, v: u64|
            t.br_to_vers.contains_key(b) && #[trigger] t.br_to_vers[b].contains(
                v,
            ) implies t.ver_to_chgset.contains_key(v) by {
            if b != id {
                assert(s.br_to_vers[b].contains(v));
            }
        }
    }
}

/// Creating a branch keeps the state valid.
pub proof fn lemma_branch_new_inv(
    s: VsState,
    name: Seq<u8>,
    first_ver: Option<Seq<u8>>,
    base_br: u64,
    base_ver: Option<u64>,
    force: bool,
)
    requires
        s.inv(),
    ensures
        s.branch_new(name, first_ver, base_br, base_ver, force) is Ok ==> s.branch_new(
            name,
            first_ver,
            base_br,
            base_ver,
            force,
        )->Ok_0.inv(),
{
    if s.branch_new(name, first_ver, base_br, base_ver, force) is Ok {
        let s1 = s.cleared_for(name, force);
        lemma_cleared_for_inv(s, name, force);
        let seen = match base_ver {
            Some(bv) => upto(s1.br_to_vers[base_br], bv),
            None => Set::empty(),
        };
        assert forall|v: u64| seen.contains(v) implies s1.ver_to_chgset.contains_key(v) by {
            assert(s1.br_to_vers[base_br].contains(v));
        }
        lemma_with_new_branch_inv(s1, name, seen);
        if let Some(vn) = first_ver {
            lemma_version_create_inv(s1.with_new_branch(name, seen), vn, s1.next_br_id);
        }
    }
}

/// Letting one version take over the writes of others keeps the state valid.
pub proof fn lemma_absorb_inv(s: VsState, target: u64, vers: Set<u64>)
    requires
        s.inv(),
        s.ver_to_chgset.contains_key(target),
    ensures
        s.absorb(target, vers).inv(),
{
    let t = s.absorb(target, vers);
    assert(t.entries_recorded()) by {
        assert forall|k: Seq<u8>, v: u64|
            t.lkv.contains_key(k) && #[trigger] t.lkv[k].contains_key(v) implies t.ver_to_chgset.contains_key(
            v,
        ) && t.ver_to_chgset[v].contains(k) by {
            if v != target || VsState::last_write(s.lkv[k], vers) is None {
                assert(s.lkv[k].contains_key(v));
            }
        }
    }
    assert(t.changes_stored()) by {
        assert forall|v: u64, k: Seq<u8>|
            t.ver_to_chgset.contains_key(v) && #[trigger] t.ver_to_chgset[v].contains(
                k,
            ) implies t.lkv.contains_key(k) && t.lkv[k].contains_key(v) by {
            if v != target {
                assert(s.ver_to_chgset[v].contains(k));
            } else if s.ver_to_chgset[v].contains(k) {
            }
        }
    }
    assert(t.visible_versions_recorded()) by {
        assert forall|b: u64, v: u64|
            t.br_to_vers.contains_key(b) && #[trigger] t.br_to_vers[b].contains(
                v,
            ) implies t.ver_to_chgset.contains_key(v) by {
            assert(s.br_to_vers[b].contains(v));
        }
    }
}

/// Hiding versions from every branch keeps the state valid.
pub proof fn lemma_detach_inv(s: VsState, vers: Set<u64>)
    requires
        s.inv(),
    ensures
        s.detach(vers).inv(),
        forall|b: u64, v: u64|
            s.detach(vers).br_to_vers.contains_key(b) && #[trigger] s.detach(
                vers,
            ).br_to_vers[b].contains(v) ==> !vers.contains(v),
{
    let t = s.detach(vers);
    assert(t.visible_versions_recorded()) by {
        assert forall|b: u64, v: u64|
            t.br_to_vers.contains_key(b) && #[trigger] t.br_to_vers[b].contains(
                v,
            ) implies t.ver_to_chgset.contains_key(v) by {
            assert(s.br_to_vers[b].contains(v));
        }
    }
}

/// Forgetting versions that no branch sees keeps the state valid.
pub proof fn lemma_strip_inv(s: VsState, vers: Set<u64>, drop_empty: bool)
    requires
        s.inv(),
        forall|b: u64, v: u64|
            s.br_to_vers.contains_key(b) && #[trigger] s.br_to_vers[b].contains(v)
                ==> !vers.contains(v),
    ensures
        s.strip(vers, drop_empty).inv(),
{
    let t = s.strip(vers, drop_empty);
    assert(t.visible_versions_recorded()) by {
        assert forall|b: u64, v: u64|
            t.br_to_vers.contains_key(b) && #[trigger] t.br_to_vers[b].contains(
                v,
            ) implies t.ver_to_chgset.contains_key(v) by {
            assert(s.br_to_vers[b].contains(v));
        }
    }
    assert(t.entries_recorded()) by {
        assert forall|k: Seq<u8>, v: u64|
            t.lkv.contains_key(k) && #[trigger] t.lkv[k].contains_key(v) implies t.ver_to_chgset.contains_key(
            v,
        ) && t.ver_to_chgset[v].contains(k) by {
            assert(s.lkv[k].contains_key(v));
        }
    }
    assert(t.changes_stored()) by {
        assert forall|v: u64, k: Seq<u8>|
            t.ver_to_chgset.contains_key(v) && #[trigger] t.ver_to_chgset[v].contains(
                k,
            ) implies t.lkv.contains_key(k) && t.lkv[k].contains_key(v) by {
            assert(s.ver_to_chgset[v].contains(k));
            assert(s.lkv[k].contains_key(v));
        }
    }
    assert(names_paired(t.ver_name_to_id, t.ver_id_to_name)) by {
        assert forall|n: Seq<u8>| #[trigger] t.ver_name_to_id.contains_key(n) implies t.ver_id_to_name.contains_key(
        t.ver_name_to_id[n]) && t.ver_id_to_name[t.ver_name_to_id[n]] == n by {
            assert(s.ver_name_to_id.contains_key(n));
        }
        assert forall|i: u64| #[trigger] t.ver_id_to_name.contains_key(i) implies t.ver_name_to_id.contains_key(
        t.ver_id_to_name[i]) && t.ver_name_to_id[t.ver_id_to_name[i]] == i by {
            assert(s.ver_id_to_name.contains_key(i));
        }
    }
}

/// Forgetting some versions and then others is forgetting them all at once.
pub proof fn lemma_strip_twice(s: VsState, a: Set<u64>, b: Set<u64>, drop_empty: bool)
    ensures
        s.strip(a, drop_empty).strip(b, drop_empty) == s.strip(a.union(b), drop_empty),
{
    let t = s.strip(a, drop_empty).strip(b, drop_empty);
    let u = s.strip(a.union(b), drop_empty);
    assert(t.ver_to_chgset =~= u.ver_to_chgset);
    assert(t.ver_id_to_name =~= u.ver_id_to_name);
    assert(t.ver_name_to_id =~= u.ver_name_to_id);
    assert forall|k: Seq<u8>| t.lkv.contains_key(k) <==> u.lkv.contains_key(k) by {
        if s.lkv.contains_key(k) {
            let h = s.lkv[k];
            let ha = h.remove_keys(a);
            if VsState::only_at(h, a.union(b)) && !VsState::only_at(h, a) {
                let v = choose|v: u64| h.contains_key(v) && !a.contains(v);
                assert(ha.contains_key(v));
                assert forall|w: u64| ha.contains_key(w) implies b.contains(w) by {
                    assert(h.contains_key(w));
                    assert(a.union(b).contains(w));
                }
            }
            if VsState::only_at(ha, b) {
                let v = choose|v: u64| ha.contains_key(v);
                assert(h.contains_key(v));
                assert forall|w: u64| h.contains_key(w) implies a.union(b).contains(w) by {
                    if !a.contains(w) {
                        assert(ha.contains_key(w));
                    }
                }
            }
        }
    }
    assert forall|k: Seq<u8>| t.lkv.contains_key(k) implies #[trigger] t.lkv[k] == u.lkv[k] by {
        assert(t.lkv[k] =~= u.lkv[k]);
    }
    assert(t.lkv =~= u.lkv);
    assert(t =~= u);
}

/// Forgetting no version changes nothing.
pub proof fn lemma_strip_nothing(s: VsState, drop_empty: bool)
    ensures
        s.strip(Set::empty(), drop_empty) == s,
{
    let t = s.strip(Set::empty(), drop_empty);
    assert(t.ver_to_chgset =~= s.ver_to_chgset);
    assert(t.ver_id_to_name =~= s.ver_id_to_name);
    assert(t.ver_name_to_id =~= s.ver_name_to_id);
    assert forall|k: Seq<u8>| s.lkv.contains_key(k) implies t.lkv.contains_key(k) by {
        if VsState::only_at(s.lkv[k], Set::empty()) {
            let v = choose|v: u64| s.lkv[k].contains_key(v);
            assert(Set::<u64>::empty().contains(v));
        }
    }
    assert forall|k: Seq<u8>| s.lkv.contains_key(k) implies #[trigger] t.lkv[k] == s.lkv[k] by {
        assert(t.lkv[k] =~= s.lkv[k]);
    }
    assert(t.lkv =~= s.lkv);
    assert(t =~= s);
}

/// Where a version newer than all of `vers` joins them, the newest write
/// among them is at that version if the history has an entry there, and is
/// what it was otherwise.
pub proof fn lemma_last_write_step(hist: Map<u64, Seq<u8>>, vers: Set<u64>, v: u64)
    requires
        forall|u: u64| vers.contains(u) ==> u < v,
    ensures
        VsState::last_write(hist, vers.insert(v)) == (if hist.contains_key(v) {
            Some(v)
        } else {
            VsState::last_write(hist, vers)
        }),
{
    let old_seen = hist.dom().intersect(vers);
    let new_seen = hist.dom().intersect(vers.insert(v));
    lemma_head(old_seen);
    lemma_head(new_seen);
    if hist.contains_key(v) {
        assert(new_seen.contains(v));
        crate::model::lemma_latest_upto_is(new_seen, u64::MAX, v);
    } else {
        assert(new_seen =~= old_seen);
    }
}

/// Among no versions there is no write.
pub proof fn lemma_last_write_none(hist: Map<u64, Seq<u8>>)
    ensures
        VsState::last_write(hist, Set::empty()) is None,
{
    lemma_head(hist.dom().intersect(Set::empty()));
}

/// The newest write among `vers`, if there is one, is an entry of the
/// history at one of `vers`, and there is one as soon as the history has an
/// entry at one of them.
pub proof fn lemma_last_write(hist: Map<u64, Seq<u8>>, vers: Set<u64>)
    ensures
        match VsState::last_write(hist, vers) {
            Some(w) => hist.contains_key(w) && vers.contains(w) && forall|u: u64|
                hist.contains_key(u) && vers.contains(u) ==> u <= w,
            None => forall|u: u64| hist.contains_key(u) ==> !vers.contains(u),
        },
{
    let seen = hist.dom().intersect(vers);
    lemma_head(seen);
    assert forall|u: u64| hist.contains_key(u) && vers.contains(u) implies seen.contains(u) by {}
}

/// Forgetting the versions that no branch sees keeps the state valid.
pub proof fn lemma_clean_up_inv(s: VsState)
    requires
        s.inv(),
    ensures
        s.version_clean_up_globally().inv(),
{
    lemma_strip_inv(s, s.orphans(), true);
}

/// Forgetting a version everywhere keeps the state valid.
pub proof fn law_revert_keeps_valid(s: VsState, ver: u64)
    requires
        s.inv(),
    ensures
        s.version_revert_globally(ver) is Ok ==> s.version_revert_globally(ver)->Ok_0.inv(),
{
    if s.version_revert_globally(ver) is Ok {
        lemma_detach_inv(s, set![ver]);
        lemma_strip_inv(s.detach(set![ver]), set![ver], false);
    }
}

/// Folding the newer versions of a branch into a base version keeps the
/// state valid.
pub proof fn law_rebase_keeps_valid(s: VsState, base: u64, br: u64)
    requires
        s.inv(),
    ensures
        s.version_rebase_by_branch(base, br) is Ok ==> s.version_rebase_by_branch(
            base,
            br,
        )->Ok_0.inv(),
{
    if s.version_rebase_by_branch(base, br) is Ok {
        let newer = above(s.br_to_vers[br], base);
        assert(s.ver_to_chgset.contains_key(base));
        lemma_absorb_inv(s, base, newer);
        lemma_detach_inv(s.absorb(base, newer), newer);
        lemma_strip_inv(s.absorb(base, newer).detach(newer), newer, false);
    }
}

/// Removing branches keeps the state valid.
pub proof fn lemma_without_branches_inv(s: VsState, gone: Set<u64>)
    requires
        s.inv(),
    ensures
        s.without_branches(gone).inv(),
{
    let t = s.without_branches(gone);
    assert(t.visible_versions_recorded()) by {
        assert forall|b: u64, v: u64|
            t.br_to_vers.contains_key(b) && #[trigger] t.br_to_vers[b].contains(
                v,
            ) implies t.ver_to_chgset.contains_key(v) by {
            assert(s.br_to_vers[b].contains(v));
        }
    }
    assert(names_paired(t.br_name_to_id, t.br_id_to_name)) by {
        assert forall|n: Seq<u8>| #[trigger] t.br_name_to_id.contains_key(n) implies t.br_id_to_name.contains_key(
        t.br_name_to_id[n]) && t.br_id_to_name[t.br_name_to_id[n]] == n by {
            assert(s.br_name_to_id.contains_key(n));
        }
        assert forall|i: u64| #[trigger] t.br_id_to_name.contains_key(i) implies t.br_name_to_id.contains_key(
        t.br_id_to_name[i]) && t.br_name_to_id[t.br_id_to_name[i]] == i by {
            assert(s.br_id_to_name.contains_key(i));
        }
    }
}

/// Removing some branches and then others is removing them all at once.
pub proof fn lemma_without_branches_twice(s: VsState, a: Set<u64>, b: Set<u64>)
    ensures
        s.without_branches(a).without_branches(b) == s.without_branches(a.union(b)),
{
    let t = s.without_branches(a).without_branches(b);
    let u = s.without_branches(a.union(b));
    assert(t.br_to_vers =~= u.br_to_vers);
    assert(t.br_id_to_name =~= u.br_id_to_name);
    assert(t.br_name_to_id =~= u.br_name_to_id);
    assert(t =~= u);
}

/// Removing no branch changes nothing.
pub proof fn lemma_without_branches_nothing(s: VsState)
    ensures
        s.without_branches(Set::empty()) == s,
{
    let t = s.without_branches(Set::empty());
    assert(t.br_to_vers =~= s.br_to_vers);
    assert(t.br_id_to_name =~= s.br_id_to_name);
    assert(t.br_name_to_id =~= s.br_name_to_id);
    assert(t =~= s);
}

/// Removing one branch is removing the set of that branch.
pub proof fn lemma_without_branch_is_set(s: VsState, br: u64)
    requires
        s.inv(),
        s.br_to_vers.contains_key(br),
    ensures
        s.without_branch(br) == s.without_branches(set![br]),
{
    let t = s.without_branch(br);
    let u = s.without_branches(set![br]);
    assert(s.br_id_to_name.contains_key(br));
    assert(t.br_to_vers =~= u.br_to_vers);
    assert(t.br_id_to_name =~= u.br_id_to_name);
    assert(t.br_name_to_id =~= u.br_name_to_id) by {
        assert forall|n: Seq<u8>| t.br_name_to_id.contains_key(n) <==> u.br_name_to_id.contains_key(
            n,
        ) by {
            if s.br_name_to_id.contains_key(n) {
                assert(s.br_id_to_name.contains_key(s.br_name_to_id[n]));
            }
        }
    }
    assert(t =~= u);
}

/// Keeping some branches only keeps the state valid.
pub proof fn law_keep_only_keeps_valid(s: VsState, keep: Set<u64>)
    requires
        s.inv(),
    ensures
        s.branch_keep_only(keep).inv(),
{
    let gone = Set::new(|b: u64| !keep.contains(b));
    lemma_without_branches_inv(s, gone);
    lemma_clean_up_inv(s.without_branches(gone));
}

/// Changing the default branch keeps the state valid.
pub proof fn law_set_default_keeps_valid(s: VsState, br: u64)
    requires
        s.inv(),
    ensures
        s.branch_set_default(br) is Ok ==> s.branch_set_default(br)->Ok_0.inv(),
{
}

/// Removing a branch keeps the state valid.
pub proof fn law_branch_remove_keeps_valid(s: VsState, br: u64)
    requires
        s.inv(),
    ensures
        s.branch_remove(br) is Ok ==> s.branch_remove(br)->Ok_0.inv(),
{
    if s.branch_remove(br) is Ok {
        lemma_without_branch_inv(s, br);
    }
}

/// Creating a branch from the newest version of another keeps the state
/// valid.
pub proof fn law_branch_new_at_head_keeps_valid(
    s: VsState,
    name: Seq<u8>,
    first_ver: Option<Seq<u8>>,
    base_br: u64,
    force: bool,
)
    requires
        s.inv(),
    ensures
        s.branch_new_at_head(name, first_ver, base_br, force) is Ok ==> s.branch_new_at_head(
            name,
            first_ver,
            base_br,
            force,
        )->Ok_0.inv(),
{
    if s.branch_new_at_head(name, first_ver, base_br, force) is Ok {
        lemma_branch_new_inv(s, name, first_ver, base_br, head(s.br_to_vers[base_br]), force);
    }
}

/// Clearing leaves a valid state.
pub proof fn lemma_cleared_inv(s: VsState)
    requires
        s.inv(),
    ensures
        s.cleared().inv(),
{
}

} // verus!
