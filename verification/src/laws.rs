//! What holds of the map whatever is done with it: laws that relate its
//! operations to one another, proved of the model that the operations'
//! contracts speak of.

use crate::model::{above, head, lemma_latest_upto, lemma_latest_upto_is, read, Limit, VsState};
use crate::validity::{lemma_head, lemma_last_write};
use vstd::prelude::*;

verus! {

/// A read finds the value at `a`, where `a` is the newest version up to
/// `ver` that the branch sees and at which the history has an entry.
pub proof fn lemma_read_is(hist: Map<u64, Seq<u8>>, vers: Set<u64>, ver: u64, a: u64)
    requires
        hist.contains_key(a),
        vers.contains(a),
        a <= ver,
        forall|u: u64| hist.contains_key(u) && vers.contains(u) && u <= ver ==> u <= a,
    ensures
        read(hist, vers, ver) == (if hist[a].len() == 0 {
            None
        } else {
            Some(hist[a])
        }),
{
    let seen = hist.dom().intersect(vers);
    assert(seen.contains(a));
    lemma_latest_upto_is(seen, ver, a);
}

/// A read finds nothing where the branch sees no version up to `ver` at
/// which the history has an entry.
pub proof fn lemma_read_none(hist: Map<u64, Seq<u8>>, vers: Set<u64>, ver: u64)
    requires
        forall|u: u64| hist.contains_key(u) && vers.contains(u) ==> u > ver,
    ensures
        read(hist, vers, ver) is None,
{
    let seen = hist.dom().intersect(vers);
    lemma_latest_upto(seen, ver);
}

/// The version at which a read finds its entry, with what makes it that
/// version; or that there is none.
pub proof fn lemma_read_at(hist: Map<u64, Seq<u8>>, vers: Set<u64>, ver: u64) -> (at: Option<u64>)
    ensures
        match at {
            Some(a) => hist.contains_key(a) && vers.contains(a) && a <= ver && (forall|u: u64|
                hist.contains_key(u) && vers.contains(u) && u <= ver ==> u <= a) && read(
                hist,
                vers,
                ver,
            ) == (if hist[a].len() == 0 {
                None
            } else {
                Some(hist[a])
            }),
            None => (forall|u: u64| hist.contains_key(u) && vers.contains(u) ==> u > ver) && read(
                hist,
                vers,
                ver,
            ) is None,
        },
{
    let seen = hist.dom().intersect(vers);
    lemma_latest_upto(seen, ver);
    let at = crate::model::latest_upto(seen, ver);
    match at {
        Some(a) => {
            assert forall|u: u64|
                hist.contains_key(u) && vers.contains(u) && u <= ver implies u <= a by {
                assert(seen.contains(u));
            }
        },
        None => {
            assert forall|u: u64| hist.contains_key(u) && vers.contains(u) implies u > ver by {
                assert(seen.contains(u));
            }
        },
    }
    at
}

/// The names and the identifiers of the branches determine one another, and
/// so do those of the versions.
pub proof fn law_names_and_ids_are_inverse(s: VsState)
    requires
        s.inv(),
    ensures
        forall|n: Seq<u8>| #[trigger]
            s.br_name_to_id.contains_key(n) ==> s.br_id_to_name.contains_key(s.br_name_to_id[n])
                && s.br_id_to_name[s.br_name_to_id[n]] == n,
        forall|i: u64| #[trigger]
            s.br_id_to_name.contains_key(i) ==> s.br_name_to_id.contains_key(s.br_id_to_name[i])
                && s.br_name_to_id[s.br_id_to_name[i]] == i,
        forall|n: Seq<u8>| #[trigger]
            s.ver_name_to_id.contains_key(n) ==> s.ver_id_to_name.contains_key(
                s.ver_name_to_id[n],
            ) && s.ver_id_to_name[s.ver_name_to_id[n]] == n,
        forall|i: u64| #[trigger]
            s.ver_id_to_name.contains_key(i) ==> s.ver_name_to_id.contains_key(
                s.ver_id_to_name[i],
            ) && s.ver_name_to_id[s.ver_id_to_name[i]] == i,
{
}

/// Every entry in the history of a key stands at a recorded version whose
/// change set holds the key.
pub proof fn law_entries_stand_in_change_sets(s: VsState, k: Seq<u8>, v: u64)
    requires
        s.inv(),
        s.lkv.contains_key(k),
        s.lkv[k].contains_key(v),
    ensures
        s.ver_to_chgset.contains_key(v),
        s.ver_to_chgset[v].contains(k),
{
}

/// Every version that a branch sees is recorded.
pub proof fn law_visible_versions_are_recorded(s: VsState, b: u64, v: u64)
    requires
        s.inv(),
        s.br_to_vers.contains_key(b),
        s.br_to_vers[b].contains(v),
    ensures
        s.ver_to_chgset.contains_key(v),
{
}

/// Creating a version records exactly one version more: a new one, under
/// the name given, which is the newest of its branch.
pub proof fn law_create_records_a_version(s: VsState, name: Seq<u8>, br: u64)
    requires
        s.inv(),
        s.version_create_by_branch(name, br) is Ok,
    ensures
        ({
            let t = s.version_create_by_branch(name, br)->Ok_0;
            &&& !s.ver_to_chgset.contains_key(s.next_ver_id)
            &&& t.ver_to_chgset.dom() == s.ver_to_chgset.dom().insert(s.next_ver_id)
            &&& t.version_id(name) == Some(s.next_ver_id)
            &&& t.head_of(br) == Some(s.next_ver_id)
        }),
{
    let t = s.version_create_by_branch(name, br)->Ok_0;
    assert(t.ver_to_chgset.dom() =~= s.ver_to_chgset.dom().insert(s.next_ver_id));
    assert forall|u: u64| t.br_to_vers[br].contains(u) implies u <= s.next_ver_id by {
        if u != s.next_ver_id {
            assert(s.br_to_vers[br].contains(u));
            assert(s.ver_to_chgset.contains_key(u));
        }
    }
    lemma_latest_upto_is(t.br_to_vers[br], u64::MAX, s.next_ver_id);
}

/// Reverting a version takes exactly that version from the record.
pub proof fn law_revert_forgets_the_version(s: VsState, ver: u64)
    requires
        s.inv(),
        s.version_revert_globally(ver) is Ok,
    ensures
        s.version_revert_globally(ver)->Ok_0.ver_to_chgset.dom() == s.ver_to_chgset.dom().remove(
            ver,
        ),
{
    let t = s.version_revert_globally(ver)->Ok_0;
    assert(t.ver_to_chgset.dom() =~= s.ver_to_chgset.dom().remove(ver));
}

/// Cleaning up takes from the record exactly the versions that no branch
/// sees.
pub proof fn law_clean_up_forgets_orphans(s: VsState)
    requires
        s.inv(),
    ensures
        s.version_clean_up_globally().ver_to_chgset.dom() == s.ver_to_chgset.dom().difference(
            s.orphans(),
        ),
{
    let t = s.version_clean_up_globally();
    assert(t.ver_to_chgset.dom() =~= s.ver_to_chgset.dom().difference(s.orphans()));
}

/// Rebasing takes from the record exactly the versions that are folded.
pub proof fn law_rebase_forgets_the_folded(s: VsState, base: u64, br: u64)
    requires
        s.inv(),
        s.version_rebase_by_branch(base, br) is Ok,
    ensures
        s.version_rebase_by_branch(base, br)->Ok_0.ver_to_chgset.dom()
            == s.ver_to_chgset.dom().difference(above(s.br_to_vers[br], base)),
{
    let t = s.version_rebase_by_branch(base, br)->Ok_0;
    let newer = above(s.br_to_vers[br], base);
    assert(s.ver_to_chgset.contains_key(base));
    assert(t.ver_to_chgset.dom() =~= s.ver_to_chgset.dom().difference(newer));
}

/// Pruning records no version that was not recorded.
pub proof fn law_prune_records_nothing(s: VsState, reserve: Option<usize>)
    requires
        s.inv(),
        s.prune(reserve) is Ok,
    ensures
        s.prune(reserve)->Ok_0.ver_to_chgset.dom().subset_of(s.ver_to_chgset.dom()),
{
    let t = s.prune(reserve)->Ok_0;
    assert forall|v: u64| t.ver_to_chgset.contains_key(v) implies s.ver_to_chgset.contains_key(
        v,
    ) by {
        if t != s {
            let keep = VsState::reserve_count(reserve);
            lemma_shared_facts(s, keep);
        }
    }
}

/// Writes, and the operations on branches, leave the record of versions as
/// it is.
pub proof fn law_other_operations_keep_the_record(
    s: VsState,
    key: Seq<u8>,
    value: Option<Seq<u8>>,
    br: u64,
    other: u64,
    ver: u64,
    force: bool,
    n1: Seq<u8>,
    n2: Seq<u8>,
)
    requires
        s.inv(),
    ensures
        s.write_by_branch(key, value, br) is Ok ==> s.write_by_branch(
            key,
            value,
            br,
        )->Ok_0.0.ver_to_chgset.dom() == s.ver_to_chgset.dom(),
        s.branch_remove(br) is Ok ==> s.branch_remove(br)->Ok_0.ver_to_chgset == s.ver_to_chgset,
        s.branch_truncate(br) is Ok ==> s.branch_truncate(br)->Ok_0.ver_to_chgset
            == s.ver_to_chgset,
        s.branch_truncate_to(br, ver) is Ok ==> s.branch_truncate_to(br, ver)->Ok_0.ver_to_chgset
            == s.ver_to_chgset,
        s.branch_pop_version(br) is Ok ==> s.branch_pop_version(br)->Ok_0.ver_to_chgset
            == s.ver_to_chgset,
        s.branch_merge(br, other, force) is Ok ==> s.branch_merge(
            br,
            other,
            force,
        )->Ok_0.ver_to_chgset == s.ver_to_chgset,
        s.branch_swap(n1, n2) is Ok ==> s.branch_swap(n1, n2)->Ok_0.ver_to_chgset
            == s.ver_to_chgset,
        s.branch_set_default(br) is Ok ==> s.branch_set_default(br)->Ok_0.ver_to_chgset
            == s.ver_to_chgset,
        s.branch_new(n1, None, br, Some(ver), force) is Ok ==> s.branch_new(
            n1,
            None,
            br,
            Some(ver),
            force,
        )->Ok_0.ver_to_chgset == s.ver_to_chgset,
{
    if s.write_by_branch(key, value, br) is Ok {
        lemma_head(s.br_to_vers[br]);
        let h = head(s.br_to_vers[br])->0;
        assert(s.ver_to_chgset.contains_key(h));
        assert(s.write(key, value, br, h).0.ver_to_chgset.dom() =~= s.ver_to_chgset.dom());
    }
}

/// After cleaning up, every recorded version is seen by some branch.
pub proof fn law_clean_up_leaves_no_orphan(s: VsState, v: u64)
    requires
        s.inv(),
        s.version_clean_up_globally().ver_to_chgset.contains_key(v),
    ensures
        exists|b: u64|
            s.version_clean_up_globally().br_to_vers.contains_key(b)
                && s.version_clean_up_globally().br_to_vers[b].contains(v),
{
    assert(!s.orphans().contains(v));
    let b = choose|b: u64| s.br_to_vers.contains_key(b) && s.br_to_vers[b].contains(v);
    assert(s.version_clean_up_globally().br_to_vers.contains_key(b) && s.version_clean_up_globally().br_to_vers[b].contains(
        v,
    ));
}

/// A value that was stored is the value that is read: after a write of a
/// value that is not empty to the newest version of a branch, the branch
/// reads that value.
pub proof fn law_read_your_writes(s: VsState, key: Seq<u8>, value: Seq<u8>, br: u64)
    requires
        s.inv(),
        value.len() > 0,
        s.insert_by_branch(key, value, br) is Ok,
    ensures
        s.insert_by_branch(key, value, br)->Ok_0.0.get_by_branch(key, br) == Some(value),
{
    let t = s.insert_by_branch(key, value, br)->Ok_0.0;
    lemma_head(s.br_to_vers[br]);
    let h = head(s.br_to_vers[br])->0;
    assert(t.br_to_vers == s.br_to_vers);
    lemma_read_is(t.history(key), t.br_to_vers[br], h, h);
}

/// What was deleted is not read: after a deletion at the newest version of
/// a branch, the branch reads nothing for the key.
pub proof fn law_deleted_is_gone(s: VsState, key: Seq<u8>, br: u64)
    requires
        s.inv(),
        s.remove_by_branch(key, br) is Ok,
    ensures
        s.remove_by_branch(key, br)->Ok_0.0.get_by_branch(key, br) is None,
{
    let t = s.remove_by_branch(key, br)->Ok_0.0;
    lemma_head(s.br_to_vers[br]);
    let h = head(s.br_to_vers[br])->0;
    if t != s {
        assert(t.br_to_vers == s.br_to_vers);
        lemma_read_is(t.history(key), t.br_to_vers[br], h, h);
    }
}

/// A scan hands out a key only with the value that a read finds for it.
pub proof fn lemma_scan_entries_are_reads(
    s: VsState,
    keys: Seq<Seq<u8>>,
    br: u64,
    ver: u64,
    lower: Limit,
    upper: Limit,
    i: int,
)
    requires
        0 <= i < s.entries_of(keys, br, ver, lower, upper).len(),
    ensures
        s.get_by_branch_version(s.entries_of(keys, br, ver, lower, upper)[i].0, br, ver) == Some(
            s.entries_of(keys, br, ver, lower, upper)[i].1,
        ),
    decreases keys.len(),
{
    if keys.len() > 0 {
        let first = s.entry_of(keys[0], br, ver, lower, upper);
        if i >= first.len() {
            lemma_scan_entries_are_reads(s, keys.drop_first(), br, ver, lower, upper, i - first.len());
        }
    }
}

/// What was deleted is not handed out: after a deletion at the newest
/// version of a branch, no scan at that version hands out the key.
pub proof fn law_deleted_is_skipped(
    s: VsState,
    key: Seq<u8>,
    br: u64,
    lower: Limit,
    upper: Limit,
    i: int,
)
    requires
        s.inv(),
        s.remove_by_branch(key, br) is Ok,
        0 <= i < s.remove_by_branch(key, br)->Ok_0.0.range_by_branch(br, lower, upper).len(),
    ensures
        s.remove_by_branch(key, br)->Ok_0.0.range_by_branch(br, lower, upper)[i].0 != key,
{
    let t = s.remove_by_branch(key, br)->Ok_0.0;
    law_deleted_is_gone(s, key, br);
    let h = t.head_of(br)->0;
    lemma_scan_entries_are_reads(
        t,
        crate::order::ascending_keys(t.lkv.dom()),
        br,
        h,
        lower,
        upper,
        i,
    );
}

/// A new branch reads at its base version what its base branch reads
/// there.
pub proof fn law_new_branch_reads_as_its_base(
    s: VsState,
    name: Seq<u8>,
    first_ver: Option<Seq<u8>>,
    base_br: u64,
    base_ver: u64,
    force: bool,
    key: Seq<u8>,
)
    requires
        s.inv(),
        s.branch_new(name, first_ver, base_br, Some(base_ver), force) is Ok,
    ensures
        ({
            let t = s.branch_new(name, first_ver, base_br, Some(base_ver), force)->Ok_0;
            &&& t.branch_id(name) is Some
            &&& t.get_by_branch_version(key, t.branch_id(name)->0, base_ver)
                == t.get_by_branch_version(key, base_br, base_ver)
        }),
{
    let t = s.branch_new(name, first_ver, base_br, Some(base_ver), force)->Ok_0;
    let s1 = s.cleared_for(name, force);
    crate::validity::lemma_cleared_for_inv(s, name, force);
    let id = s1.next_br_id;
    assert(t.branch_id(name) == Some(id));
    assert(s1.ver_to_chgset.contains_key(base_ver));
    assert(!s1.br_to_vers.contains_key(id));
    let mine = t.br_to_vers[id];
    let theirs = t.br_to_vers[base_br];
    assert(theirs == s1.br_to_vers[base_br]);
    let hist = t.history(key);
    assert forall|u: u64| u <= base_ver implies (hist.dom().intersect(mine).contains(u)
        <==> hist.dom().intersect(theirs).contains(u)) by {}
    crate::model::lemma_latest_upto_same(
        hist.dom().intersect(mine),
        hist.dom().intersect(theirs),
        base_ver,
    );
}

/// A second merge changes nothing: merging a branch into another and then
/// merging it again leaves the state that the first merge gave.
pub proof fn law_merge_twice_is_merge_once(s: VsState, src: u64, dst: u64)
    requires
        s.inv(),
        s.branch_merge(src, dst, false) is Ok,
    ensures
        s.branch_merge(src, dst, false)->Ok_0.branch_merge(src, dst, false) == s.branch_merge(
            src,
            dst,
            false,
        ),
{
    let t = s.branch_merge(src, dst, false)->Ok_0;
    let a = s.br_to_vers[src];
    let d = s.br_to_vers[dst];
    let both = d.union(a);
    lemma_head(d);
    lemma_head(a);
    lemma_head(both);
    assert(t.br_to_vers[dst] == both);
    // the newest version of the merged branch is one of the source
    if let Some(h) = head(both) {
        if !a.contains(h) {
            assert(d.contains(h));
            let hd = head(d)->0;
            assert(a.contains(hd));
            assert(both.contains(hd));
        }
        if src == dst {
            assert(t.br_to_vers[src] == both);
        }
        assert(t.br_to_vers[src].contains(h));
    }
    let u = t.branch_merge(src, dst, false)->Ok_0;
    assert(t.br_to_vers[dst].union(t.br_to_vers[src]) =~= both);
    assert(u.br_to_vers =~= t.br_to_vers);
    assert(u =~= t);
}

/// Rebasing leaves what the branch reads at its newest version as it was,
/// and leaves the branch no version that is newer than the base.
pub proof fn law_rebase_keeps_the_head(s: VsState, base: u64, br: u64, key: Seq<u8>)
    requires
        s.inv(),
        s.version_rebase_by_branch(base, br) is Ok,
    ensures
        ({
            let t = s.version_rebase_by_branch(base, br)->Ok_0;
            &&& t.get_by_branch(key, br) == s.get_by_branch(key, br)
            &&& t.br_to_vers.contains_key(br)
            &&& forall|v: u64| t.br_to_vers[br].contains(v) ==> v <= base
            &&& t.head_of(br) == Some(base)
        }),
{
    let t = s.version_rebase_by_branch(base, br)->Ok_0;
    let vers = s.br_to_vers[br];
    let newer = above(vers, base);
    let left = t.br_to_vers[br];
    assert(left =~= vers.difference(newer));
    lemma_head(vers);
    lemma_head(left);
    let h = head(vers)->0;
    assert(left.contains(base));
    lemma_latest_upto_is(left, u64::MAX, base);
    assert(t.head_of(br) == Some(base));
    let hist = s.history(key);
    let at = lemma_read_at(hist, vers, h);
    if s.lkv.contains_key(key) {
        lemma_last_write(hist, newer);
        let h1 = match VsState::last_write(hist, newer) {
            Some(w) => hist.insert(base, hist[w]),
            None => hist,
        };
        assert(t.lkv.contains_key(key));
        assert(t.lkv[key] =~= h1.remove_keys(newer));
        let now = t.history(key);
        match at {
            Some(a) => {
                if a > base {
                    assert(newer.contains(a));
                    let w = VsState::last_write(hist, newer)->0;
                    assert(w == a);
                    assert(now.contains_key(base) && now[base] == hist[a]);
                    lemma_read_is(now, left, base, base);
                } else {
                    assert(VsState::last_write(hist, newer) is None) by {
                        if let Some(w) = VsState::last_write(hist, newer) {
                            assert(vers.contains(w));
                            assert(w <= h);
                        }
                    }
                    assert(now.contains_key(a) && now[a] == hist[a]);
                    lemma_read_is(now, left, base, a);
                }
            },
            None => {
                assert(VsState::last_write(hist, newer) is None) by {
                    if let Some(w) = VsState::last_write(hist, newer) {
                        assert(vers.contains(w));
                    }
                }
                assert forall|u: u64| now.contains_key(u) && left.contains(u) implies u
                    > base by {
                    assert(hist.contains_key(u) && vers.contains(u));
                }
                lemma_read_none(now, left, base);
            },
        }
    } else {
        assert(!t.lkv.contains_key(key));
        lemma_read_none(t.history(key), left, base);
    }
}

/// Among the values for which a property holds there is a least one.
proof fn lemma_least(p: spec_fn(u64) -> bool, v: u64) -> (r: u64)
    requires
        p(v),
    ensures
        p(r),
        forall|u: u64| #[trigger] p(u) ==> r <= u,
    decreases v,
{
    if exists|u: u64| #[trigger] p(u) && u < v {
        let u = choose|u: u64| #[trigger] p(u) && u < v;
        lemma_least(p, u)
    } else {
        v
    }
}

/// What makes pruning keep the reads of the branches in use. Where there
/// is something to fold: the version that takes over is the oldest of every
/// branch in use; every branch in use sees all versions that are folded;
/// below a folded version a branch in use sees only folded versions and the
/// one that takes over; and the newest version of a branch in use is not
/// folded, as long as at least one version is to be kept.
pub proof fn lemma_shared_facts(s: VsState, keep: nat)
    requires
        s.inv(),
        s.has_prunable(keep),
    ensures
        s.is_rewrite_version(s.rewrite_version()),
        !s.prunable(keep).contains(s.rewrite_version()),
        s.ver_to_chgset.contains_key(s.rewrite_version()),
        forall|v: u64| s.prunable(keep).contains(v) ==> s.rewrite_version() < v,
        forall|b: u64, v: u64|
            s.branch_in_use(b) && s.prunable(keep).contains(v) ==> #[trigger] s.br_to_vers[b].contains(
                v,
            ),
        forall|b: u64| s.branch_in_use(b) ==> #[trigger] s.br_to_vers[b].contains(
            s.rewrite_version(),
        ),
        forall|b: u64, u: u64|
            s.branch_in_use(b) && #[trigger] s.br_to_vers[b].contains(u) ==> s.rewrite_version()
                <= u,
        forall|b: u64, u: u64, v: u64|
            s.branch_in_use(b) && #[trigger] s.br_to_vers[b].contains(u) && #[trigger] s.prunable(
                keep,
            ).contains(v) && u < v ==> u == s.rewrite_version() || s.prunable(keep).contains(u),
        keep > 0 ==> forall|b: u64, v: u64|
            s.branch_in_use(b) && #[trigger] s.br_to_vers[b].contains(v) && (forall|u: u64|
                s.br_to_vers[b].contains(u) ==> u <= v) ==> !s.prunable(keep).contains(v),
{
    let m = s.prunable(keep);
    let v0 = choose|v: u64| m.contains(v);
    let b0 = choose|b: u64| s.branch_in_use(b);
    let p = |u: u64| s.shared(u);
    assert(p(v0));
    let r0 = lemma_least(p, v0);
    assert(s.is_rewrite_version(r0)) by {
        assert(p(r0));
        assert forall|u: u64| s.shared(u) implies r0 <= u by {
            assert(p(u));
        }
    }
    let r = s.rewrite_version();
    assert(s.is_rewrite_version(r));
    assert(s.br_to_vers[b0].contains(r));
    // below a shared version, what a branch in use sees is shared
    assert forall|b: u64, u: u64, v: u64|
        s.branch_in_use(b) && #[trigger] s.br_to_vers[b].contains(u) && #[trigger] s.shared(v) && u
            <= v implies s.shared(u) by {
        assert forall|c: u64| s.branch_in_use(c) implies #[trigger] s.br_to_vers[c].contains(
            u,
        ) by {
            assert(s.br_to_vers[b].contains(u) <==> s.br_to_vers[c].contains(u));
        }
        assert forall|b1: u64, b2: u64, w: u64|
            s.branch_in_use(b1) && s.branch_in_use(b2) && w <= u implies (
            #[trigger] s.br_to_vers[b1].contains(w) <==> #[trigger] s.br_to_vers[b2].contains(w)) by {
            assert(w <= v);
        }
    }
    assert forall|b: u64, u: u64| s.branch_in_use(b) && #[trigger] s.br_to_vers[b].contains(u) implies r
        <= u by {
        if u < r {
            assert(s.shared(r));
            assert(s.shared(u));
        }
    }
    assert forall|v: u64| m.contains(v) implies r < v by {
        assert(s.shared(v));
        assert(!s.is_rewrite_version(v));
    }
    assert forall|b: u64, u: u64, v: u64|
        s.branch_in_use(b) && #[trigger] s.br_to_vers[b].contains(u) && #[trigger] m.contains(v) && u
            < v implies u == r || m.contains(u) by {
        assert(s.shared(v));
        assert(s.shared(u));
        if u != r {
            assert(!s.is_rewrite_version(u)) by {
                if s.is_rewrite_version(u) {
                    assert(u <= r);
                    assert(r <= u);
                }
            }
            let q = choose|q: Seq<u64>| q.len() == keep && s.newer_shared(v, q);
            assert(s.newer_shared(u, q));
        }
    }
    if keep > 0 {
        assert forall|b: u64, v: u64|
            s.branch_in_use(b) && #[trigger] s.br_to_vers[b].contains(v) && (forall|u: u64|
                s.br_to_vers[b].contains(u) ==> u <= v) implies !m.contains(v) by {
            if m.contains(v) {
                let q = choose|q: Seq<u64>| q.len() == keep && s.newer_shared(v, q);
                assert(s.shared(q[0]) && q[0] > v);
                assert(s.br_to_vers[b].contains(q[0]));
            }
        }
    }
}

/// Pruning keeps the state valid.
pub proof fn law_prune_keeps_valid(s: VsState, reserve: Option<usize>)
    requires
        s.inv(),
    ensures
        s.prune(reserve) is Ok ==> s.prune(reserve)->Ok_0.inv(),
{
    let keep = VsState::reserve_count(reserve);
    if s.prune(reserve) is Ok && s.has_prunable(keep) {
        lemma_shared_facts(s, keep);
        let r = s.rewrite_version();
        let m = s.prunable(keep);
        crate::validity::lemma_absorb_inv(s, r, m);
        crate::validity::lemma_detach_inv(s.absorb(r, m), m);
        crate::backend::prune::lemma_collapse_inv(s.absorb(r, m).detach(m), r, m);
        crate::validity::lemma_clean_up_inv(s.absorb(r, m).detach(m).collapse(r, m));
    }
}

/// The history of a key after a fold, as far as a branch can see it.
/// `hist` is the history before; the versions `m` are folded into version
/// `r`, which takes over the newest value written at one of them; where that
/// value is a deletion, the entry at `r` is dropped again.
pub open spec fn folded_history(hist: Map<u64, Seq<u8>>, m: Set<u64>, r: u64) -> Map<
    u64,
    Seq<u8>,
> {
    match VsState::last_write(hist, m) {
        Some(w) => if hist[w].len() == 0 {
            hist.remove(r)
        } else {
            hist.insert(r, hist[w])
        },
        None => hist,
    }
}

/// A fold keeps what a branch reads at its newest version `h`, where the
/// branch sees the versions `vers` before and the same without the folded
/// versions `m` after, and its history `now` of the key is, at the versions
/// that it sees, the folded history.
pub proof fn lemma_fold_keeps_read(
    hist: Map<u64, Seq<u8>>,
    now: Map<u64, Seq<u8>>,
    vers: Set<u64>,
    m: Set<u64>,
    r: u64,
    h: u64,
)
    requires
        vers.contains(h),
        forall|u: u64| vers.contains(u) ==> u <= h,
        !m.contains(h),
        vers.contains(r),
        !m.contains(r),
        forall|u: u64| vers.contains(u) ==> r <= u,
        forall|v: u64| m.contains(v) ==> vers.contains(v) && r < v,
        forall|u: u64, v: u64|
            #[trigger] vers.contains(u) && #[trigger] m.contains(v) && u < v ==> u == r
                || m.contains(u),
        forall|u: u64|
            vers.contains(u) && !m.contains(u) ==> (#[trigger] now.contains_key(u)
                <==> folded_history(hist, m, r).contains_key(u)) && (now.contains_key(u) ==> now[u]
                == folded_history(hist, m, r)[u]),
    ensures
        read(now, vers.difference(m), h) == read(hist, vers, h),
{
    let left = vers.difference(m);
    let at = lemma_read_at(hist, vers, h);
    lemma_last_write(hist, m);
    let touched = VsState::last_write(hist, m);
    let fh = folded_history(hist, m, r);
    match at {
        Some(a) => {
            if m.contains(a) {
                let w = touched->0;
                assert(vers.contains(w));
                assert(w == a);
                if hist[a].len() == 0 {
                    assert forall|u: u64| now.contains_key(u) && left.contains(u) implies u
                        > h by {
                        assert(fh.contains_key(u));
                        assert(hist.contains_key(u));
                        assert(u <= a);
                        assert(u != a);
                        assert(u == r || m.contains(u));
                    }
                    lemma_read_none(now, left, h);
                } else {
                    assert(left.contains(r));
                    assert(fh.contains_key(r));
                    assert(now.contains_key(r) <==> fh.contains_key(r));
                    assert(fh[r] == hist[a]);
                    assert(now.contains_key(r) && now[r] == hist[a]);
                    assert forall|u: u64|
                        now.contains_key(u) && left.contains(u) && u <= h implies u <= r by {
                        assert(fh.contains_key(u));
                        if u != r {
                            assert(hist.contains_key(u));
                            assert(u <= a);
                            assert(u != a);
                            assert(u == r || m.contains(u));
                        }
                    }
                    lemma_read_is(now, left, h, r);
                }
            } else {
                assert(left.contains(a));
                if let Some(w) = touched {
                    assert(vers.contains(w));
                    assert(w <= a);
                    assert(r < w);
                }
                assert(fh.contains_key(a) && fh[a] == hist[a]);
                assert(now.contains_key(a) <==> fh.contains_key(a));
                assert(now.contains_key(a) && now[a] == hist[a]);
                assert forall|u: u64|
                    now.contains_key(u) && left.contains(u) && u <= h implies u <= a by {
                    assert(fh.contains_key(u));
                    if !hist.contains_key(u) {
                        assert(u == r);
                        let w = touched->0;
                        assert(vers.contains(w));
                    }
                }
                lemma_read_is(now, left, h, a);
            }
        },
        None => {
            assert(touched is None) by {
                if let Some(w) = touched {
                    assert(vers.contains(w));
                }
            }
            assert forall|u: u64| now.contains_key(u) && left.contains(u) implies u > h by {
                assert(fh.contains_key(u));
                assert(hist.contains_key(u) && vers.contains(u));
            }
            lemma_read_none(now, left, h);
        },
    }
}

/// After a fold of the versions `m` into version `r`, a branch sees what it
/// saw without `m`, and the history of a key is, at the versions that a
/// branch sees, the folded history.
pub proof fn lemma_fold_shared_history(s: VsState, r: u64, m: Set<u64>, br: u64, key: Seq<u8>)
    requires
        s.inv(),
        s.ver_to_chgset.contains_key(r),
        !m.contains(r),
        s.br_to_vers.contains_key(br),
    ensures
        s.fold_shared(r, m).br_to_vers.contains_key(br),
        s.fold_shared(r, m).br_to_vers[br] == s.br_to_vers[br].difference(m),
        forall|u: u64|
            s.br_to_vers[br].contains(u) && !m.contains(u) ==> (#[trigger] s.fold_shared(
                r,
                m,
            ).history(key).contains_key(u) <==> folded_history(s.history(key), m, r).contains_key(
                u,
            )) && (s.fold_shared(r, m).history(key).contains_key(u) ==> s.fold_shared(
                r,
                m,
            ).history(key)[u] == folded_history(s.history(key), m, r)[u]),
{
    let s1 = s.absorb(r, m);
    let s2 = s1.detach(m);
    let s3 = s2.collapse(r, m);
    let gone = s3.orphans();
    let t = s3.strip(gone, true);
    assert(t == s.fold_shared(r, m));
    assert(t.br_to_vers[br] =~= s.br_to_vers[br].difference(m));
    let hist = s.history(key);
    let fh = folded_history(hist, m, r);
    let now = t.history(key);
    lemma_last_write(hist, m);
    if s.lkv.contains_key(key) {
        let touched = VsState::last_write(hist, m);
        let h1 = match touched {
            Some(w) => hist.insert(r, hist[w]),
            None => hist,
        };
        assert(s2.lkv[key] == h1);
        assert(h1.dom().intersect(m) =~= hist.dom().intersect(m));
        assert(VsState::last_write(h1, m) == touched);
        let dead = touched is Some && h1.contains_key(r) && h1[r].len() == 0;
        let h3 = if dead {
            h1.remove(r)
        } else {
            h1
        };
        assert(s3.lkv[key] == h3);
        assert(h3 =~= fh);
        assert forall|u: u64| s.br_to_vers[br].contains(u) && !m.contains(u) implies (
        #[trigger] now.contains_key(u) <==> fh.contains_key(u)) && (now.contains_key(u) ==> now[u]
            == fh[u]) by {
            assert(s3.br_to_vers.contains_key(br) && s3.br_to_vers[br].contains(u));
            assert(!gone.contains(u));
            if fh.contains_key(u) {
                assert(!VsState::only_at(h3, gone));
            }
            if t.lkv.contains_key(key) {
                assert(t.lkv[key] == h3.remove_keys(gone));
            }
        }
    } else {
        assert(!t.lkv.contains_key(key));
        assert(fh == hist);
    }
}

/// Pruning leaves what every branch reads at its newest version as it was.
pub proof fn law_prune_keeps_every_head(s: VsState, reserve: Option<usize>, br: u64, key: Seq<u8>)
    requires
        s.inv(),
        s.prune(reserve) is Ok,
    ensures
        s.prune(reserve)->Ok_0.get_by_branch(key, br) == s.get_by_branch(key, br),
{
    let t = s.prune(reserve)->Ok_0;
    let keep = VsState::reserve_count(reserve);
    if s.has_prunable(keep) {
        assert(keep > 0);
        lemma_shared_facts(s, keep);
        let r = s.rewrite_version();
        let m = s.prunable(keep);
        assert(t == s.fold_shared(r, m));
        if s.br_to_vers.contains_key(br) {
            lemma_fold_shared_history(s, r, m, br, key);
            let vers = s.br_to_vers[br];
            let left = t.br_to_vers[br];
            lemma_head(vers);
            lemma_head(left);
            match head(vers) {
                None => {
                    assert(head(left) is None);
                },
                Some(h) => {
                    assert(s.branch_in_use(br));
                    assert(!m.contains(h));
                    assert(left.contains(h));
                    lemma_latest_upto_is(left, u64::MAX, h);
                    assert(t.head_of(br) == Some(h));
                    lemma_fold_keeps_read(s.history(key), t.history(key), vers, m, r, h);
                },
            }
        } else {
            assert(!t.br_to_vers.contains_key(br));
        }
    }
}

} // verus!
