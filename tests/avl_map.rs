use csc_7b_fc::avlmap::{newpair, AVLMap};

#[test]
fn map_insert_get_take() {
    let mut m: AVLMap<i32, &str> = AVLMap::new();
    assert!(m.insert(3, "three"));
    assert!(m.insert(1, "one"));
    assert!(m.insert(2, "two"));
    assert!(!m.insert(2, "deux"));
    assert_eq!(m.len(), 3);
    assert_eq!(m.get(&2), Some(&"two"));
    assert_eq!(m.get(&5), None);
    let p = m.take(&1).unwrap();
    assert_eq!((p.key, p.val), (1, "one"));
    assert!(m.take(&1).is_none());
    assert_eq!(m.len(), 2);
    assert_eq!(m.get(&1), None);
}

#[test]
fn map_and_modify_counts() {
    let mut m: AVLMap<u64, u64> = AVLMap::new();
    for k in [4u64, 1, 4, 4, 9] {
        m.and_modify(k, |old| old.map(|p| p.val + 1).unwrap_or(1));
    }
    assert_eq!(m.get(&4), Some(&3));
    assert_eq!(m.get(&1), Some(&1));
    assert_eq!(m.len(), 3);
    let prev = m.and_modify(9, |_| 100).unwrap();
    assert_eq!(prev.val, 1);
    assert_eq!(m.get(&9), Some(&100));
    let pair = newpair(5, 6);
    assert_eq!((pair.key, pair.val), (5, 6));
}
