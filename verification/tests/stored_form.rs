use vsdb_core::common::{BranchName, ParentBranchName, VersionName, VsError};
use vsdb_core::idmap::IdMap;
use vsdb_core::keymap::KeyMap;
use vsdb_core::stored::MapxRawVsWithoutDerivedFields;
use vsdb_core::versioned::MapxRawVs;

fn sample() -> MapxRawVs {
    let mut m = MapxRawVs::new();
    m.version_create(VersionName(b"v1")).unwrap();
    m.insert(&[1], &[1]).unwrap();
    m.insert(&[2], &[2]).unwrap();
    m.version_create(VersionName(b"v2")).unwrap();
    m.remove(&[1]).unwrap();
    m.branch_create_by_base_branch_version(
        BranchName(b"dev"),
        VersionName(b"d1"),
        ParentBranchName(b"main"),
        VersionName(b"v1"),
        false,
    )
    .unwrap();
    m.insert_by_branch(&[3], &[3], BranchName(b"dev")).unwrap();
    m
}

#[test]
fn stored_and_rebuilt_reads_the_same() {
    let m = sample();
    let parts = m.to_parts();
    assert_eq!(parts.br_name_to_br_id.len(), 2);
    assert_eq!(parts.ver_name_to_ver_id.len(), 3);
    assert_eq!(parts.br_to_its_vers.len(), 2);
    assert_eq!(parts.ver_to_change_set.len(), 3);
    let r = MapxRawVs::from_parts(parts).unwrap();
    assert_eq!(r.branch_list(), m.branch_list());
    assert_eq!(r.version_list_globally(), m.version_list_globally());
    assert_eq!(r.branch_get_default(), m.branch_get_default());
    for br in [&b"main"[..], &b"dev"[..]] {
        assert_eq!(
            r.version_list_by_branch(BranchName(br)),
            m.version_list_by_branch(BranchName(br))
        );
        for ver in [&b"v1"[..], &b"v2"[..], &b"d1"[..]] {
            for key in [[1u8], [2], [3], [4]] {
                assert_eq!(
                    r.get_by_branch_version(&key, BranchName(br), VersionName(ver)),
                    m.get_by_branch_version(&key, BranchName(br), VersionName(ver))
                );
            }
        }
    }
    assert_eq!(r.get(&[1]), None);
    assert_eq!(r.get(&[2]), Some(vec![2]));
    assert_eq!(r.get_by_branch(&[3], BranchName(b"dev")), Some(vec![3]));
}

#[test]
fn rebuilt_map_goes_on_with_new_identifiers() {
    let m = sample();
    let mut r = MapxRawVs::from_parts(m.to_parts()).unwrap();
    assert_eq!(r.version_create(VersionName(b"v3")), Ok(()));
    assert_eq!(r.insert(&[9], &[9]), Ok(None));
    assert_eq!(r.get(&[9]), Some(vec![9]));
    assert_eq!(r.get_by_branch(&[9], BranchName(b"dev")), None);
    assert_eq!(
        r.branch_create(BranchName(b"x"), VersionName(b"x1"), false),
        Ok(())
    );
    assert_eq!(r.get_by_branch(&[9], BranchName(b"x")), Some(vec![9]));
}

#[test]
fn contradicting_indices_are_refused() {
    // two names for one branch
    let mut parts = sample().to_parts();
    let id = *parts.br_name_to_br_id.get(b"main").unwrap();
    parts.br_name_to_br_id.insert(b"again", id);
    assert_eq!(
        MapxRawVs::from_parts(parts).err(),
        Some(VsError::CorruptedIndex)
    );
    // a branch without versions index
    let mut parts = sample().to_parts();
    parts.br_name_to_br_id.insert(b"ghost", 77);
    assert_eq!(
        MapxRawVs::from_parts(parts).err(),
        Some(VsError::CorruptedIndex)
    );
    // a branch that sees a version that is not recorded
    let mut parts = sample().to_parts();
    let mut vers = IdMap::new();
    vers.insert(4242, ());
    let main = *parts.br_name_to_br_id.get(b"main").unwrap();
    parts.br_to_its_vers.insert(main, vers);
    assert_eq!(
        MapxRawVs::from_parts(parts).err(),
        Some(VsError::CorruptedIndex)
    );
    // a change set of a version without a name
    let mut parts = sample().to_parts();
    parts.ver_to_change_set.insert(4242, KeyMap::new());
    assert_eq!(
        MapxRawVs::from_parts(parts).err(),
        Some(VsError::CorruptedIndex)
    );
    // the identifier that none can be
    let mut parts = sample().to_parts();
    parts.ver_name_to_ver_id.insert(b"zero", 0);
    parts.ver_to_change_set.insert(0, KeyMap::new());
    assert_eq!(
        MapxRawVs::from_parts(parts).err(),
        Some(VsError::CorruptedIndex)
    );
}

#[test]
fn empty_stored_form_gives_an_empty_map() {
    let parts = MapxRawVsWithoutDerivedFields {
        default_branch: 1,
        br_name_to_br_id: KeyMap::new(),
        ver_name_to_ver_id: KeyMap::new(),
        br_to_its_vers: IdMap::new(),
        ver_to_change_set: IdMap::new(),
    };
    let mut m = MapxRawVs::from_parts(parts).unwrap();
    assert!(m.branch_list().is_empty());
    assert!(!m.branch_default_exists());
    assert_eq!(m.version_create(VersionName(b"v")), Err(VsError::BranchNotFound));
}

#[test]
fn stored_indices_agree() {
    let m = sample();
    let parts = m.to_parts();
    // names and identifiers determine one another
    let mut ids: Vec<u64> = (0..parts.br_name_to_br_id.len())
        .map(|i| *parts.br_name_to_br_id.value_at(i))
        .collect();
    ids.sort();
    ids.dedup();
    assert_eq!(ids.len(), parts.br_name_to_br_id.len());
    let br_ids: Vec<u64> = (0..parts.br_to_its_vers.len())
        .map(|i| parts.br_to_its_vers.id_at(i))
        .collect();
    assert_eq!(ids, br_ids);
    let mut vids: Vec<u64> = (0..parts.ver_name_to_ver_id.len())
        .map(|i| *parts.ver_name_to_ver_id.value_at(i))
        .collect();
    vids.sort();
    vids.dedup();
    let recorded: Vec<u64> = (0..parts.ver_to_change_set.len())
        .map(|i| parts.ver_to_change_set.id_at(i))
        .collect();
    assert_eq!(vids, recorded);
    // every version that a branch sees is recorded
    for i in 0..parts.br_to_its_vers.len() {
        let vers = parts.br_to_its_vers.value_at(i);
        for j in 0..vers.len() {
            assert!(parts.ver_to_change_set.contains_key(vers.id_at(j)));
        }
    }
    // what version v2 wrote is the deletion of key 1
    let v2 = *parts.ver_name_to_ver_id.get(b"v2").unwrap();
    let chg = parts.ver_to_change_set.get(v2).unwrap();
    assert_eq!(chg.len(), 1);
    assert_eq!(chg.get(&[1]), Some(&vec![]));
}

#[test]
fn a_copy_shares_nothing() {
    let m = sample();
    let mut c = m.duplicate();
    assert_eq!(c.branch_list(), m.branch_list());
    assert_eq!(c.version_list_globally(), m.version_list_globally());
    assert_eq!(c.get(&[2]), Some(vec![2]));
    c.insert(&[2], &[22]).unwrap();
    c.version_create(VersionName(b"only-in-copy")).unwrap();
    assert_eq!(c.get(&[2]), Some(vec![22]));
    assert_eq!(m.get(&[2]), Some(vec![2]));
    assert!(!m.version_exists_globally(VersionName(b"only-in-copy")));
    let d = m.clone();
    assert_eq!(d.get(&[2]), Some(vec![2]));
    assert_eq!(d.version_list(), m.version_list());
}
