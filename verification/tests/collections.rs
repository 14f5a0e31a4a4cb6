use vsdb_core::idmap::IdMap;
use vsdb_core::keymap::KeyMap;
use vsdb_core::order::{compare_bytes, Order};

#[test]
fn bytes_compare_lexicographically() {
    assert_eq!(compare_bytes(&[], &[]), Order::Equal);
    assert_eq!(compare_bytes(&[], &[0]), Order::Less);
    assert_eq!(compare_bytes(&[0], &[]), Order::Greater);
    assert_eq!(compare_bytes(&[1, 2], &[1, 2]), Order::Equal);
    assert_eq!(compare_bytes(&[1, 2], &[1, 3]), Order::Less);
    assert_eq!(compare_bytes(&[1, 2], &[1, 2, 0]), Order::Less);
    assert_eq!(compare_bytes(&[2], &[1, 255]), Order::Greater);
    assert_eq!(compare_bytes(&[255], &[254, 255, 255]), Order::Greater);
}

#[test]
fn id_map_keeps_its_entries_in_order() {
    let mut m: IdMap<u8> = IdMap::new();
    assert!(m.is_empty());
    assert_eq!(m.last_id(), None);
    for id in [5u64, 1, 9, 3, 7] {
        assert_eq!(m.insert(id, id as u8), None);
    }
    assert_eq!(m.len(), 5);
    let ids: Vec<u64> = (0..m.len()).map(|i| m.id_at(i)).collect();
    assert_eq!(ids, vec![1, 3, 5, 7, 9]);
    assert_eq!(*m.value_at(2), 5);
    assert_eq!(m.insert(5, 50), Some(5));
    assert_eq!(m.get(5), Some(&50));
    assert_eq!(m.get(4), None);
    assert!(m.contains_key(9));
    assert!(!m.contains_key(0));
    assert_eq!(m.position(7), Some(3));
    assert_eq!(m.position(8), None);
    assert_eq!(m.count_below(5), 2);
    assert_eq!(m.count_upto(5), 3);
    assert_eq!(m.count_below(0), 0);
    assert_eq!(m.count_upto(u64::MAX), 5);
    assert_eq!(m.count_upto(4), 2);
    assert_eq!(m.last_id(), Some(9));
    assert_eq!(m.replace_at(0, 11), 1);
    assert_eq!(m.get(1), Some(&11));
    assert_eq!(m.remove(3), Some(3));
    assert_eq!(m.remove(3), None);
    assert_eq!(m.len(), 4);
    m.truncate(2);
    let ids: Vec<u64> = (0..m.len()).map(|i| m.id_at(i)).collect();
    assert_eq!(ids, vec![1, 5]);
    m.clear();
    assert!(m.is_empty());
}

#[test]
fn key_map_keeps_its_entries_in_order() {
    let mut m: KeyMap<u64> = KeyMap::new();
    assert!(m.is_empty());
    for (i, k) in [&b"pear"[..], b"apple", b"fig", b"", b"apples"].iter().enumerate() {
        assert_eq!(m.insert(k, i as u64), None);
    }
    assert_eq!(m.len(), 5);
    let keys: Vec<Vec<u8>> = (0..m.len()).map(|i| m.key_at(i).clone()).collect();
    assert_eq!(
        keys,
        vec![
            b"".to_vec(),
            b"apple".to_vec(),
            b"apples".to_vec(),
            b"fig".to_vec(),
            b"pear".to_vec()
        ]
    );
    assert_eq!(*m.value_at(1), 1);
    assert_eq!(m.insert(b"fig", 20), Some(2));
    assert_eq!(m.get(b"fig"), Some(&20));
    assert_eq!(m.get(b"figs"), None);
    assert!(m.contains_key(b""));
    assert_eq!(m.position(b"pear"), Some(4));
    assert_eq!(m.position(b"pea"), None);
    assert_eq!(m.count_below(b"apples"), 2);
    assert_eq!(m.count_upto(b"apples"), 3);
    assert_eq!(m.count_below(b"b"), 3);
    assert_eq!(m.count_upto(b"b"), 3);
    assert_eq!(m.replace_at(0, 7), 3);
    assert_eq!(m.remove(b"apple"), Some(1));
    assert_eq!(m.remove(b"apple"), None);
    assert_eq!(m.len(), 4);
    let copy = m.duplicate();
    assert_eq!(copy.len(), 4);
    assert_eq!(copy.get(b"pear"), Some(&0));
    m.clear();
    assert!(m.is_empty());
    assert_eq!(copy.len(), 4);
}
