use vsdb_core::backend::VsBackend;
use vsdb_core::common::{KeyBound, VsError, INITIAL_BRANCH_ID, NULL_ID};
use vsdb_core::idmap::IdMap;
use vsdb_core::keymap::KeyMap;
use vsdb_core::stored::MapxRawVsWithoutDerivedFields;

#[test]
fn identifiers_rise() {
    let mut m = VsBackend::new();
    assert_eq!(m.branch_get_default(), INITIAL_BRANCH_ID);
    assert_eq!(m.branch_get_id_by_name(b"main"), Some(INITIAL_BRANCH_ID));
    assert_eq!(m.head_of(INITIAL_BRANCH_ID), None);
    m.version_create(b"a").unwrap();
    m.version_create(b"b").unwrap();
    let a = m.version_get_id_by_name(b"a").unwrap();
    let b = m.version_get_id_by_name(b"b").unwrap();
    assert!(NULL_ID < a && a < b);
    assert_eq!(m.head_of(INITIAL_BRANCH_ID), Some(b));
    m.branch_create(b"x", b"x1", false).unwrap();
    let x = m.branch_get_id_by_name(b"x").unwrap();
    assert!(INITIAL_BRANCH_ID < x);
    let x1 = m.version_get_id_by_name(b"x1").unwrap();
    assert!(b < x1);
    assert!(m.version_exists_on_branch(a, x));
    assert!(m.version_exists_on_branch(x1, x));
    assert!(!m.version_exists_on_branch(x1, INITIAL_BRANCH_ID));
    assert!(m.version_exists(a));
    assert!(m.version_exists_globally(x1));
    assert!(!m.version_exists_globally(x1 + 1));
    assert!(m.branch_exists(x));
    assert!(!m.branch_exists(NULL_ID));
}

#[test]
fn reads_go_through_the_versions_of_the_branch() {
    let mut m = VsBackend::new();
    m.version_create(b"v1").unwrap();
    m.insert(&[1], &[1]).unwrap();
    m.branch_create(b"x", b"x1", false).unwrap();
    let x = m.branch_get_id_by_name(b"x").unwrap();
    m.version_create(b"v2").unwrap();
    m.insert(&[1], &[2]).unwrap();
    let v1 = m.version_get_id_by_name(b"v1").unwrap();
    let v2 = m.version_get_id_by_name(b"v2").unwrap();
    let x1 = m.version_get_id_by_name(b"x1").unwrap();
    // v2 is newer than x1, but the branch does not see it
    assert!(x1 < v2);
    assert_eq!(m.get_by_branch_version(&[1], x, v2), Some(vec![1]));
    assert_eq!(m.get_by_branch_version(&[1], x, u64::MAX), Some(vec![1]));
    assert_eq!(m.get_by_branch_version(&[1], INITIAL_BRANCH_ID, v2), Some(vec![2]));
    assert_eq!(m.get_by_branch_version(&[1], INITIAL_BRANCH_ID, v1), Some(vec![1]));
    assert_eq!(m.get_by_branch_version(&[1], INITIAL_BRANCH_ID, NULL_ID), None);
    assert_eq!(m.get_by_branch_version(&[1], NULL_ID, v2), None);
    assert_eq!(m.get_by_branch(&[1], x), Some(vec![1]));
    assert_eq!(m.len_by_branch_version(INITIAL_BRANCH_ID, NULL_ID), 0);
    let mut it = m.range_by_branch_version(x, v2, KeyBound::Unbounded, KeyBound::Unbounded);
    assert_eq!(it.next(), Some((vec![1], vec![1])));
    assert_eq!(it.next(), None);
}

#[test]
fn operations_by_identifier_report_errors() {
    let mut m = VsBackend::new();
    assert_eq!(m.insert_by_branch(&[1], &[1], 99), Err(VsError::BranchNotFound));
    assert_eq!(m.remove_by_branch(&[1], 99), Err(VsError::BranchNotFound));
    assert_eq!(m.version_create_by_branch(b"v", 99), Err(VsError::BranchNotFound));
    assert_eq!(m.branch_remove(99), Err(VsError::BranchNotFound));
    assert_eq!(m.branch_set_default(99), Err(VsError::BranchNotFound));
    assert_eq!(m.version_pop_by_branch(99), Err(VsError::BranchNotFound));
    assert_eq!(m.version_revert_globally(99), Err(VsError::VersionNotFound));
    assert_eq!(m.version_has_change_set(99), Err(VsError::VersionNotFound));
    assert_eq!(
        m.version_rebase_by_branch(99, INITIAL_BRANCH_ID),
        Err(VsError::VersionOnWrongBranch)
    );
    assert_eq!(m.version_rebase(99), Err(VsError::VersionOnWrongBranch));
    assert_eq!(
        m.branch_create_by_base_branch(b"x", b"x1", 99, false),
        Err(VsError::BaseBranchNotFound)
    );
    assert_eq!(
        m.branch_create_by_base_branch_version(b"x", b"x1", INITIAL_BRANCH_ID, 99, false),
        Err(VsError::VersionOnWrongBranch)
    );
    assert_eq!(m.version_chgset_trie_root(Some(99), None), Err(VsError::BranchNotFound));
    assert_eq!(m.version_chgset_trie_root(None, Some(99)), Err(VsError::VersionNotFound));
    assert_eq!(m.version_chgset_trie_root(None, None), Err(VsError::VersionNotFound));
    assert_eq!(m.branch_keep_only(&[99]), Ok(()));
    assert!(m.branch_list().is_empty());
}

fn with_last_ids(br: u64, ver: u64) -> VsBackend {
    let mut names = KeyMap::new();
    names.insert(b"main", br);
    let mut ver_names = KeyMap::new();
    ver_names.insert(b"v", ver);
    let mut vers = IdMap::new();
    vers.insert(ver, ());
    let mut brs = IdMap::new();
    brs.insert(br, vers);
    let mut chg = IdMap::new();
    chg.insert(ver, KeyMap::new());
    VsBackend::from_parts(MapxRawVsWithoutDerivedFields {
        default_branch: br,
        br_name_to_br_id: names,
        ver_name_to_ver_id: ver_names,
        br_to_its_vers: brs,
        ver_to_change_set: chg,
    })
    .unwrap()
}

#[test]
fn identifiers_run_out() {
    let mut m = with_last_ids(u64::MAX - 1, u64::MAX - 1);
    assert_eq!(m.version_create(b"w"), Err(VsError::IdSpaceExhausted));
    assert_eq!(
        m.branch_create_without_new_version(b"x", false),
        Err(VsError::IdSpaceExhausted)
    );
    assert_eq!(m.insert(&[1], &[1]), Ok(None));
    assert_eq!(m.get(&[1]), Some(vec![1]));
    let mut m = with_last_ids(5, u64::MAX - 2);
    assert_eq!(m.version_create(b"w"), Ok(()));
    assert_eq!(m.version_get_id_by_name(b"w"), Some(u64::MAX - 1));
    assert_eq!(m.version_create(b"x"), Err(VsError::IdSpaceExhausted));
    assert_eq!(m.branch_create(b"b", b"b1", false), Err(VsError::IdSpaceExhausted));
    assert_eq!(m.branch_create_without_new_version(b"b", false), Ok(()));
    assert_eq!(m.branch_get_id_by_name(b"b"), Some(6));
}
