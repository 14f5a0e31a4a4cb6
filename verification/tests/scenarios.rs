use vsdb_core::common::{
    BranchName, BranchNameOwned, KeyBound, ParentBranchName, VersionName, VersionNameOwned,
    VsError,
};
use vsdb_core::versioned::MapxRawVs;

const MAIN: BranchName<'static> = BranchName(b"main");

fn names(list: &[&[u8]]) -> Vec<VersionNameOwned> {
    list.iter().map(|n| VersionNameOwned(n.to_vec())).collect()
}

fn collect(mut it: vsdb_core::backend::scan::MapxRawVsIter<'_>) -> Vec<(Vec<u8>, Vec<u8>)> {
    let mut out = Vec::new();
    while let Some(kv) = it.next() {
        out.push(kv);
    }
    out
}

#[test]
fn initial_reads_return_none() {
    let mut m = MapxRawVs::new();
    assert_eq!(m.version_create(VersionName(b"v0")), Ok(()));
    assert_eq!(m.get(&[0x01]), None);
}

#[test]
fn new_map_has_the_initial_branch_only() {
    let m = MapxRawVs::new();
    assert_eq!(m.branch_list(), vec![BranchNameOwned(b"main".to_vec())]);
    assert_eq!(m.branch_get_default(), BranchNameOwned(b"main".to_vec()));
    assert!(m.branch_exists(MAIN));
    assert!(!m.branch_has_versions(MAIN));
    assert_eq!(m.version_list(), Ok(vec![]));
    assert!(m.is_empty());
    assert_eq!(m.len(), 0);
}

#[test]
fn insert_without_version_is_refused() {
    let mut m = MapxRawVs::new();
    assert_eq!(m.insert(&[1], &[2]), Err(VsError::NoVersionOnBranch));
    assert_eq!(m.remove(&[1]), Err(VsError::NoVersionOnBranch));
    assert_eq!(
        m.insert_by_branch(&[1], &[2], BranchName(b"nope")),
        Err(VsError::BranchNotFound)
    );
}

#[test]
fn insert_delete_round_trip() {
    let mut m = MapxRawVs::new();
    m.version_create(VersionName(b"v0")).unwrap();
    assert_eq!(m.insert(&[0x01], &[0xAA]), Ok(None));
    assert_eq!(m.get(&[0x01]), Some(vec![0xAA]));
    assert_eq!(m.remove(&[0x01]), Ok(Some(vec![0xAA])));
    assert_eq!(m.get(&[0x01]), None);
    assert!(collect(m.iter()).is_empty());
    assert!(m.is_empty());
    // deleting what is not there changes nothing and reports nothing
    assert_eq!(m.remove(&[0x02]), Ok(None));
    assert_eq!(m.version_has_change_set(VersionName(b"v0")), Ok(true));
}

#[test]
fn read_your_writes() {
    let mut m = MapxRawVs::new();
    m.version_create(VersionName(b"v0")).unwrap();
    assert_eq!(m.insert(&[7, 7], &[1, 2, 3]), Ok(None));
    assert_eq!(m.get(&[7, 7]), Some(vec![1, 2, 3]));
    assert_eq!(m.insert(&[7, 7], &[4]), Ok(Some(vec![1, 2, 3])));
    assert_eq!(m.get(&[7, 7]), Some(vec![4]));
    assert!(m.contains_key(&[7, 7]));
    assert!(!m.contains_key(&[7]));
}

#[test]
fn empty_value_is_a_deletion() {
    let mut m = MapxRawVs::new();
    m.version_create(VersionName(b"v0")).unwrap();
    m.insert(&[1], &[9]).unwrap();
    assert_eq!(m.insert(&[1], &[]), Ok(Some(vec![9])));
    assert_eq!(m.get(&[1]), None);
}

#[test]
fn branch_inheritance() {
    let mut m = MapxRawVs::new();
    m.version_create(VersionName(b"v1")).unwrap();
    m.insert(&[0x01], &[0xAA]).unwrap();
    m.version_create(VersionName(b"v2")).unwrap();
    m.insert(&[0x01], &[0xBB]).unwrap();
    assert_eq!(
        m.branch_create_by_base_branch_version(
            BranchName(b"test"),
            VersionName(b"tv1"),
            ParentBranchName(b"main"),
            VersionName(b"v1"),
            false
        ),
        Ok(())
    );
    assert_eq!(m.get_by_branch(&[0x01], BranchName(b"test")), Some(vec![0xAA]));
    assert_eq!(m.get_by_branch(&[0x01], MAIN), Some(vec![0xBB]));
    assert_eq!(
        m.version_list_by_branch(BranchName(b"test")),
        Ok(names(&[b"v1", b"tv1"]))
    );
    // right after creation the new branch reads at the base version what the base reads
    assert_eq!(
        m.get_by_branch_version(&[0x01], BranchName(b"test"), VersionName(b"v1")),
        m.get_by_branch_version(&[0x01], MAIN, VersionName(b"v1"))
    );
}

#[test]
fn tombstone_visibility() {
    let mut m = MapxRawVs::new();
    m.version_create(VersionName(b"v1")).unwrap();
    m.insert(&[0x01], &[0xAA]).unwrap();
    m.version_create(VersionName(b"v2")).unwrap();
    m.remove(&[0x01]).unwrap();
    assert_eq!(
        m.get_by_branch_version(&[0x01], MAIN, VersionName(b"v1")),
        Some(vec![0xAA])
    );
    assert_eq!(m.get_by_branch_version(&[0x01], MAIN, VersionName(b"v2")), None);
    assert_eq!(m.len_by_branch_version(MAIN, VersionName(b"v1")), 1);
    assert_eq!(m.len_by_branch_version(MAIN, VersionName(b"v2")), 0);
}

#[test]
fn prune_last_writer_wins() {
    let mut m = MapxRawVs::new();
    for (i, v) in [b"v1", b"v2", b"v3", b"v4", b"v5"].iter().enumerate() {
        m.version_create(VersionName(&v[..])).unwrap();
        m.insert(&[0x01], &[i as u8 + 1]).unwrap();
    }
    assert_eq!(m.prune(Some(1)), Ok(()));
    // the oldest version and the newest one stay; v2..v4 are folded into v1
    assert_eq!(m.version_list(), Ok(names(&[b"v1", b"v5"])));
    assert_eq!(m.version_list_globally(), names(&[b"v1", b"v5"]));
    assert!(!m.version_exists_globally(VersionName(b"v2")));
    assert!(!m.version_exists_globally(VersionName(b"v3")));
    assert!(!m.version_exists_globally(VersionName(b"v4")));
    assert_eq!(
        m.get_by_branch_version(&[0x01], MAIN, VersionName(b"v1")),
        Some(vec![0x04])
    );
    assert_eq!(
        m.get_by_branch_version(&[0x01], MAIN, VersionName(b"v5")),
        Some(vec![0x05])
    );
    assert_eq!(m.get(&[0x01]), Some(vec![0x05]));
}

#[test]
fn prune_keeps_the_default_number() {
    let mut m = MapxRawVs::new();
    for i in 0..13u8 {
        m.version_create(VersionName(&[b'v', i])).unwrap();
        m.insert(&[i], &[i + 1]).unwrap();
    }
    assert_eq!(m.prune(None), Ok(()));
    // 13 shared versions: the oldest and the newest 10 stay, 2 are folded
    assert_eq!(m.version_list().unwrap().len(), 11);
    for i in 0..13u8 {
        assert_eq!(m.get(&[i]), Some(vec![i + 1]));
    }
    assert_eq!(m.get_by_branch_version(&[2], MAIN, VersionName(&[b'v', 0])), Some(vec![3]));
}

#[test]
fn prune_refuses_zero_and_leaves_short_histories_alone() {
    let mut m = MapxRawVs::new();
    assert_eq!(m.prune(Some(0)), Err(VsError::InvalidReserveCount));
    assert_eq!(m.prune(None), Ok(()));
    m.version_create(VersionName(b"v1")).unwrap();
    m.insert(&[1], &[1]).unwrap();
    m.version_create(VersionName(b"v2")).unwrap();
    assert_eq!(m.prune(Some(1)), Ok(()));
    assert_eq!(m.version_list(), Ok(names(&[b"v1", b"v2"])));
}

#[test]
fn prune_drops_deletions() {
    let mut m = MapxRawVs::new();
    m.version_create(VersionName(b"v1")).unwrap();
    m.insert(&[1], &[1]).unwrap();
    m.version_create(VersionName(b"v2")).unwrap();
    m.remove(&[1]).unwrap();
    m.insert(&[2], &[2]).unwrap();
    m.version_create(VersionName(b"v3")).unwrap();
    m.version_create(VersionName(b"v4")).unwrap();
    assert_eq!(m.prune(Some(1)), Ok(()));
    assert_eq!(m.version_list(), Ok(names(&[b"v1", b"v4"])));
    assert_eq!(m.get(&[1]), None);
    assert_eq!(m.get(&[2]), Some(vec![2]));
    assert_eq!(m.get_by_branch_version(&[1], MAIN, VersionName(b"v1")), None);
    assert_eq!(
        m.version_chgset_entries(None, Some(VersionName(b"v1"))),
        Ok(vec![(vec![2], vec![2])])
    );
}

#[test]
fn prune_looks_at_what_branches_share() {
    let mut m = MapxRawVs::new();
    for v in [b"v1", b"v2", b"v3", b"v4"] {
        m.version_create(VersionName(&v[..])).unwrap();
        m.insert(&[1], &v[..]).unwrap();
    }
    // the second branch shares v1..v3 with the first
    m.branch_create_by_base_branch_version(
        BranchName(b"b"),
        VersionName(b"b1"),
        ParentBranchName(b"main"),
        VersionName(b"v3"),
        false,
    )
    .unwrap();
    m.insert_by_branch(&[1], b"b1", BranchName(b"b")).unwrap();
    assert_eq!(m.prune(Some(1)), Ok(()));
    assert_eq!(m.version_list(), Ok(names(&[b"v1", b"v3", b"v4"])));
    assert_eq!(
        m.version_list_by_branch(BranchName(b"b")),
        Ok(names(&[b"v1", b"v3", b"b1"]))
    );
    assert_eq!(m.get(&[1]), Some(b"v4".to_vec()));
    assert_eq!(m.get_by_branch(&[1], BranchName(b"b")), Some(b"b1".to_vec()));
    assert_eq!(
        m.get_by_branch_version(&[1], MAIN, VersionName(b"v1")),
        Some(b"v2".to_vec())
    );
}

#[test]
fn merge_suffix_copy() {
    let mut m = MapxRawVs::new();
    m.branch_create_without_new_version(BranchName(b"s"), false).unwrap();
    m.branch_create_without_new_version(BranchName(b"d"), false).unwrap();
    for v in [b"v1", b"v2", b"v3"] {
        m.version_create_by_branch(VersionName(&v[..]), BranchName(b"s")).unwrap();
    }
    assert_eq!(m.branch_merge_to(BranchName(b"s"), BranchName(b"d")), Ok(()));
    assert_eq!(
        m.version_list_by_branch(BranchName(b"d")),
        Ok(names(&[b"v1", b"v2", b"v3"]))
    );
    // a second merge changes nothing
    assert_eq!(m.branch_merge_to(BranchName(b"s"), BranchName(b"d")), Ok(()));
    assert_eq!(
        m.version_list_by_branch(BranchName(b"d")),
        Ok(names(&[b"v1", b"v2", b"v3"]))
    );
}

#[test]
fn merge_refuses_where_the_target_went_on() {
    let mut m = MapxRawVs::new();
    m.version_create(VersionName(b"v1")).unwrap();
    m.branch_create(BranchName(b"dev"), VersionName(b"d1"), false).unwrap();
    m.version_create(VersionName(b"v2")).unwrap();
    assert_eq!(
        m.branch_merge_to(BranchName(b"dev"), MAIN),
        Err(VsError::UnsafeMerge)
    );
    assert_eq!(m.version_list(), Ok(names(&[b"v1", b"v2"])));
    assert_eq!(m.branch_merge_to_force(BranchName(b"dev"), MAIN), Ok(()));
    assert_eq!(m.version_list(), Ok(names(&[b"v1", b"d1", b"v2"])));
    assert_eq!(
        m.branch_merge_to(BranchName(b"x"), MAIN),
        Err(VsError::BranchNotFound)
    );
    assert_eq!(
        m.branch_merge_to(MAIN, BranchName(b"x")),
        Err(VsError::TargetBranchNotFound)
    );
}

#[test]
fn merge_brings_the_data_of_the_source() {
    let mut m = MapxRawVs::new();
    m.version_create(VersionName(b"v1")).unwrap();
    m.insert(&[1], &[1]).unwrap();
    m.branch_create(BranchName(b"dev"), VersionName(b"d1"), false).unwrap();
    m.insert_by_branch(&[1], &[2], BranchName(b"dev")).unwrap();
    m.insert_by_branch(&[3], &[3], BranchName(b"dev")).unwrap();
    assert_eq!(m.get(&[1]), Some(vec![1]));
    assert_eq!(m.branch_merge_to(BranchName(b"dev"), MAIN), Ok(()));
    assert_eq!(m.get(&[1]), Some(vec![2]));
    assert_eq!(m.get(&[3]), Some(vec![3]));
}

#[test]
fn rebase_keeps_what_the_head_reads() {
    let mut m = MapxRawVs::new();
    m.version_create(VersionName(b"v1")).unwrap();
    m.insert(&[1], &[1]).unwrap();
    m.insert(&[9], &[9]).unwrap();
    m.version_create(VersionName(b"v2")).unwrap();
    m.insert(&[1], &[2]).unwrap();
    m.insert(&[2], &[2]).unwrap();
    m.version_create(VersionName(b"v3")).unwrap();
    m.remove(&[9]).unwrap();
    m.insert(&[2], &[3]).unwrap();
    assert_eq!(m.version_rebase(VersionName(b"v1")), Ok(()));
    assert_eq!(m.version_list(), Ok(names(&[b"v1"])));
    assert_eq!(m.version_list_globally(), names(&[b"v1"]));
    assert_eq!(m.get(&[1]), Some(vec![2]));
    assert_eq!(m.get(&[2]), Some(vec![3]));
    assert_eq!(m.get(&[9]), None);
    assert_eq!(
        m.version_rebase(VersionName(b"v2")),
        Err(VsError::VersionNotFound)
    );
}

#[test]
fn rebase_needs_the_base_on_the_branch() {
    let mut m = MapxRawVs::new();
    m.version_create(VersionName(b"v1")).unwrap();
    m.branch_create(BranchName(b"dev"), VersionName(b"d1"), false).unwrap();
    assert_eq!(
        m.version_rebase(VersionName(b"d1")),
        Err(VsError::VersionOnWrongBranch)
    );
    assert_eq!(
        m.version_rebase_by_branch(VersionName(b"v1"), BranchName(b"x")),
        Err(VsError::BranchNotFound)
    );
}

#[test]
fn revert_forgets_a_version() {
    let mut m = MapxRawVs::new();
    m.version_create(VersionName(b"v1")).unwrap();
    m.insert(&[1], &[1]).unwrap();
    m.version_create(VersionName(b"v2")).unwrap();
    m.insert(&[1], &[2]).unwrap();
    assert_eq!(m.version_revert_globally(VersionName(b"v2")), Ok(()));
    assert_eq!(m.get(&[1]), Some(vec![1]));
    assert_eq!(m.version_list(), Ok(names(&[b"v1"])));
    assert!(!m.version_exists_globally(VersionName(b"v2")));
    assert_eq!(
        m.version_revert_globally(VersionName(b"v2")),
        Err(VsError::VersionNotFound)
    );
    // the name is free again
    assert_eq!(m.version_create(VersionName(b"v2")), Ok(()));
}

#[test]
fn clean_up_forgets_what_no_branch_sees() {
    let mut m = MapxRawVs::new();
    m.version_create(VersionName(b"v1")).unwrap();
    m.insert(&[1], &[1]).unwrap();
    m.version_create(VersionName(b"v2")).unwrap();
    m.insert(&[2], &[2]).unwrap();
    assert_eq!(m.version_pop(), Ok(()));
    assert!(m.version_exists_globally(VersionName(b"v2")));
    assert!(!m.version_exists(VersionName(b"v2")));
    assert_eq!(m.get(&[2]), None);
    assert_eq!(m.version_clean_up_globally(), Ok(()));
    assert!(!m.version_exists_globally(VersionName(b"v2")));
    assert_eq!(m.version_list_globally(), names(&[b"v1"]));
    assert_eq!(m.get(&[1]), Some(vec![1]));
}

#[test]
fn version_names_are_unique() {
    let mut m = MapxRawVs::new();
    m.version_create(VersionName(b"v1")).unwrap();
    assert_eq!(
        m.version_create(VersionName(b"v1")),
        Err(VsError::VersionAlreadyExists)
    );
    assert_eq!(
        m.version_create_by_branch(VersionName(b"v2"), BranchName(b"x")),
        Err(VsError::BranchNotFound)
    );
    assert_eq!(
        m.branch_create(BranchName(b"b"), VersionName(b"v1"), false),
        Err(VsError::VersionAlreadyExists)
    );
    assert!(!m.branch_exists(BranchName(b"b")));
}

#[test]
fn branch_creation_errors() {
    let mut m = MapxRawVs::new();
    m.version_create(VersionName(b"v1")).unwrap();
    m.branch_create(BranchName(b"b"), VersionName(b"b1"), false).unwrap();
    assert_eq!(
        m.branch_create(BranchName(b"b"), VersionName(b"b2"), false),
        Err(VsError::BranchAlreadyExists)
    );
    assert_eq!(
        m.branch_create_by_base_branch(
            BranchName(b"c"),
            VersionName(b"c1"),
            ParentBranchName(b"nope"),
            false
        ),
        Err(VsError::BaseBranchNotFound)
    );
    assert_eq!(
        m.branch_create_by_base_branch_version(
            BranchName(b"c"),
            VersionName(b"c1"),
            ParentBranchName(b"main"),
            VersionName(b"nope"),
            false
        ),
        Err(VsError::VersionNotFound)
    );
    assert_eq!(
        m.branch_create_by_base_branch_version(
            BranchName(b"c"),
            VersionName(b"c1"),
            ParentBranchName(b"main"),
            VersionName(b"b1"),
            false
        ),
        Err(VsError::VersionOnWrongBranch)
    );
    // with force the old branch is replaced
    assert_eq!(m.branch_create(BranchName(b"b"), VersionName(b"b2"), true), Ok(()));
    assert_eq!(
        m.version_list_by_branch(BranchName(b"b")),
        Ok(names(&[b"v1", b"b2"]))
    );
    // a forced creation from the branch that it replaces finds no base
    assert_eq!(
        m.branch_create_by_base_branch_version_without_new_version(
            BranchName(b"b"),
            ParentBranchName(b"b"),
            VersionName(b"v1"),
            true
        ),
        Err(VsError::BaseBranchNotFound)
    );
    assert!(m.branch_exists(BranchName(b"b")));
}

#[test]
fn branch_truncate_and_pop() {
    let mut m = MapxRawVs::new();
    for v in [b"v1", b"v2", b"v3", b"v4"] {
        m.version_create(VersionName(&v[..])).unwrap();
        m.insert(&[1], &v[..]).unwrap();
    }
    assert_eq!(m.branch_truncate_to(MAIN, VersionName(b"v2")), Ok(()));
    assert_eq!(m.version_list(), Ok(names(&[b"v1", b"v2"])));
    assert_eq!(m.get(&[1]), Some(b"v2".to_vec()));
    assert_eq!(m.branch_pop_version(MAIN), Ok(()));
    assert_eq!(m.version_list(), Ok(names(&[b"v1"])));
    assert_eq!(m.branch_truncate(MAIN), Ok(()));
    assert_eq!(m.version_list(), Ok(vec![]));
    assert_eq!(m.branch_pop_version(MAIN), Ok(()));
    assert_eq!(m.get(&[1]), None);
    assert_eq!(
        m.branch_truncate_to(BranchName(b"x"), VersionName(b"v1")),
        Err(VsError::BranchNotFound)
    );
    assert_eq!(
        m.branch_truncate_to(MAIN, VersionName(b"x")),
        Err(VsError::VersionNotFound)
    );
    assert_eq!(m.branch_truncate(BranchName(b"x")), Err(VsError::BranchNotFound));
    assert_eq!(m.branch_pop_version(BranchName(b"x")), Err(VsError::BranchNotFound));
}

#[test]
fn branch_remove_and_keep_only() {
    let mut m = MapxRawVs::new();
    m.version_create(VersionName(b"v1")).unwrap();
    m.insert(&[1], &[1]).unwrap();
    m.branch_create(BranchName(b"a"), VersionName(b"a1"), false).unwrap();
    m.insert_by_branch(&[2], &[2], BranchName(b"a")).unwrap();
    m.branch_create(BranchName(b"b"), VersionName(b"b1"), false).unwrap();
    assert_eq!(m.branch_remove(BranchName(b"b")), Ok(()));
    assert_eq!(m.branch_remove(BranchName(b"b")), Err(VsError::BranchNotFound));
    assert!(m.version_exists_globally(VersionName(b"b1")));
    assert_eq!(
        m.branch_keep_only(&[MAIN, BranchName(b"zz")]),
        Err(VsError::BranchNotFound)
    );
    assert_eq!(m.branch_keep_only(&[MAIN]), Ok(()));
    assert_eq!(m.branch_list(), vec![BranchNameOwned(b"main".to_vec())]);
    assert_eq!(m.version_list_globally(), names(&[b"v1"]));
    assert_eq!(m.get(&[1]), Some(vec![1]));
}

#[test]
fn branch_swap_trades_names() {
    let mut m = MapxRawVs::new();
    m.version_create(VersionName(b"v1")).unwrap();
    m.insert(&[1], &[1]).unwrap();
    m.branch_create(BranchName(b"test"), VersionName(b"t1"), false).unwrap();
    m.insert_by_branch(&[1], &[2], BranchName(b"test")).unwrap();
    assert_eq!(m.branch_swap(MAIN, BranchName(b"test")), Ok(()));
    assert_eq!(m.get_by_branch(&[1], MAIN), Some(vec![2]));
    assert_eq!(m.get_by_branch(&[1], BranchName(b"test")), Some(vec![1]));
    // the default branch is still the one called main
    assert_eq!(m.branch_get_default(), BranchNameOwned(b"main".to_vec()));
    assert_eq!(m.get(&[1]), Some(vec![2]));
    assert_eq!(
        m.branch_swap(MAIN, BranchName(b"x")),
        Err(VsError::BranchNotFound)
    );
}

#[test]
fn default_branch_can_be_changed() {
    let mut m = MapxRawVs::new();
    m.version_create(VersionName(b"v1")).unwrap();
    m.branch_create(BranchName(b"dev"), VersionName(b"d1"), false).unwrap();
    assert_eq!(m.branch_set_default(BranchName(b"dev")), Ok(()));
    assert_eq!(m.branch_get_default(), BranchNameOwned(b"dev".to_vec()));
    m.insert(&[1], &[1]).unwrap();
    assert_eq!(m.get_by_branch(&[1], BranchName(b"dev")), Some(vec![1]));
    assert_eq!(m.get_by_branch(&[1], MAIN), None);
    assert_eq!(
        m.branch_set_default(BranchName(b"x")),
        Err(VsError::BranchNotFound)
    );
    assert!(m.branch_default_exists());
    m.branch_remove(BranchName(b"dev")).unwrap();
    assert!(!m.branch_default_exists());
    assert_eq!(m.insert(&[1], &[1]), Err(VsError::BranchNotFound));
}

#[test]
fn branch_is_empty_looks_at_change_sets() {
    let mut m = MapxRawVs::new();
    assert_eq!(m.branch_is_empty(MAIN), Ok(true));
    m.version_create(VersionName(b"v1")).unwrap();
    assert_eq!(m.branch_is_empty(MAIN), Ok(true));
    assert_eq!(m.version_has_change_set(VersionName(b"v1")), Ok(false));
    m.insert(&[1], &[1]).unwrap();
    assert_eq!(m.branch_is_empty(MAIN), Ok(false));
    assert_eq!(m.branch_is_empty(BranchName(b"x")), Err(VsError::BranchNotFound));
    assert_eq!(
        m.version_has_change_set(VersionName(b"x")),
        Err(VsError::VersionNotFound)
    );
}

#[test]
fn scans_walk_the_keys_in_order() {
    let mut m = MapxRawVs::new();
    m.version_create(VersionName(b"v1")).unwrap();
    for k in [[3u8], [1], [5], [2], [4]] {
        m.insert(&k, &[k[0] * 10]).unwrap();
    }
    m.remove(&[3]).unwrap();
    let all = collect(m.iter());
    assert_eq!(
        all,
        vec![
            (vec![1], vec![10]),
            (vec![2], vec![20]),
            (vec![4], vec![40]),
            (vec![5], vec![50])
        ]
    );
    assert_eq!(m.len(), 4);
    let mid = collect(m.range(KeyBound::Included(&[2]), KeyBound::Excluded(&[5])));
    assert_eq!(mid, vec![(vec![2], vec![20]), (vec![4], vec![40])]);
    let mid = collect(m.range(KeyBound::Excluded(&[2]), KeyBound::Included(&[5])));
    assert_eq!(mid, vec![(vec![4], vec![40]), (vec![5], vec![50])]);
    assert!(collect(m.range(KeyBound::Included(&[5]), KeyBound::Included(&[1]))).is_empty());
    let mut it = m.iter();
    assert_eq!(it.next_back(), Some((vec![5], vec![50])));
    assert_eq!(it.next(), Some((vec![1], vec![10])));
    assert_eq!(it.next_back(), Some((vec![4], vec![40])));
    assert_eq!(it.next_back(), Some((vec![2], vec![20])));
    assert_eq!(it.next_back(), None);
    assert_eq!(it.next(), None);
    assert_eq!(m.get_ge(&[3]), Some((vec![4], vec![40])));
    assert_eq!(m.get_ge(&[4]), Some((vec![4], vec![40])));
    assert_eq!(m.get_ge(&[6]), None);
    assert_eq!(m.get_le(&[3]), Some((vec![2], vec![20])));
    assert_eq!(m.get_le(&[0]), None);
    assert_eq!(m.get_le_by_branch(&[9], MAIN), Some((vec![5], vec![50])));
    assert_eq!(m.get_ge_by_branch(&[0], BranchName(b"x")), None);
    assert!(collect(m.iter_by_branch(BranchName(b"x"))).is_empty());
    assert!(collect(m.iter_by_branch_version(MAIN, VersionName(b"x"))).is_empty());
    assert_eq!(m.len_by_branch(BranchName(b"x")), 0);
    assert!(m.is_empty_by_branch(BranchName(b"x")));
    assert!(!m.is_empty_by_branch(MAIN));
}

#[test]
fn keys_sort_lexicographically() {
    let mut m = MapxRawVs::new();
    m.version_create(VersionName(b"v1")).unwrap();
    for k in [&[1u8, 0][..], &[1], &[], &[0, 255], &[1, 0, 0]] {
        m.insert(k, &[1]).unwrap();
    }
    let keys: Vec<Vec<u8>> = collect(m.iter()).into_iter().map(|kv| kv.0).collect();
    assert_eq!(
        keys,
        vec![vec![], vec![0, 255], vec![1], vec![1, 0], vec![1, 0, 0]]
    );
}

#[test]
fn clear_starts_again() {
    let mut m = MapxRawVs::new();
    m.version_create(VersionName(b"v1")).unwrap();
    m.insert(&[1], &[1]).unwrap();
    m.branch_create(BranchName(b"dev"), VersionName(b"d1"), false).unwrap();
    m.clear();
    assert_eq!(m.branch_list(), vec![BranchNameOwned(b"main".to_vec())]);
    assert_eq!(m.version_list_globally(), vec![]);
    assert_eq!(m.get(&[1]), None);
    assert_eq!(m.version_create(VersionName(b"v1")), Ok(()));
    assert_eq!(m.insert(&[1], &[2]), Ok(None));
}

#[test]
fn trie_root_of_a_change_set() {
    let mut m = MapxRawVs::new();
    m.version_create(VersionName(b"v1")).unwrap();
    m.insert(b"dog", b"puppy").unwrap();
    m.insert(b"dogglesworth", b"cat").unwrap();
    m.insert(b"doe", b"reindeer").unwrap();
    let root = m.version_chgset_trie_root(None, None).unwrap();
    let want: [u8; 32] = [
        0x8a, 0xad, 0x78, 0x9d, 0xff, 0x2f, 0x53, 0x8b, 0xca, 0x5d, 0x8e, 0xa5, 0x6e, 0x8a, 0xbe,
        0x10, 0xf4, 0xc7, 0xba, 0x3a, 0x5d, 0xea, 0x95, 0xfe, 0xa4, 0xcd, 0x6e, 0x7c, 0x3a, 0x11,
        0x68, 0xd3,
    ];
    assert_eq!(root, want.to_vec());
    assert_eq!(
        m.version_chgset_entries(Some(MAIN), None),
        Ok(vec![
            (b"doe".to_vec(), b"reindeer".to_vec()),
            (b"dog".to_vec(), b"puppy".to_vec()),
            (b"dogglesworth".to_vec(), b"cat".to_vec()),
        ])
    );
    m.version_create(VersionName(b"v2")).unwrap();
    let empty = m.version_chgset_trie_root(None, Some(VersionName(b"v2"))).unwrap();
    assert_ne!(empty, root);
    assert_eq!(
        m.version_chgset_trie_root(None, Some(VersionName(b"v1"))),
        Ok(root)
    );
    assert_eq!(
        m.version_chgset_trie_root(Some(BranchName(b"x")), None),
        Err(VsError::BranchNotFound)
    );
    assert_eq!(
        m.version_chgset_trie_root(None, Some(VersionName(b"x"))),
        Err(VsError::VersionNotFound)
    );
    m.branch_create_without_new_version(BranchName(b"e"), false).unwrap();
    m.branch_truncate(BranchName(b"e")).unwrap();
    assert_eq!(
        m.version_chgset_trie_root(Some(BranchName(b"e")), None),
        Err(VsError::VersionNotFound)
    );
}
