use csc_7b_fc::avltree::{AVLSet, Bst};

fn in_order(t: &Bst<i64>) -> Vec<i64> {
    let mut out = Vec::new();
    let mut it = t.iter();
    while let Some(x) = it.next() {
        out.push(*x);
    }
    out
}

/// Checks the cached heights and the balance of every node; returns the height.
fn check_avl(t: &Bst<i64>) -> u8 {
    match t {
        Bst::Empty => 0,
        Bst::Node(c) => {
            let hl = check_avl(&c.left);
            let hr = check_avl(&c.right);
            assert!((hl as i16 - hr as i16).abs() <= 1);
            assert_eq!(c.height, hl.max(hr) + 1);
            c.height
        }
    }
}

fn strictly_ascending(v: &[i64]) -> bool {
    v.windows(2).all(|w| w[0] < w[1])
}

#[test]
fn balance_kept_under_monotonic_inserts_and_removes() {
    let mut set = AVLSet::new();
    for x in 0..2000i64 {
        assert!(set.add(x));
        check_avl(&set.root);
    }
    assert_eq!(set.len(), 2000);
    assert!(set.height() <= 15);
    for x in (0..2000i64).rev().step_by(3) {
        assert!(set.remove(&x));
        check_avl(&set.root);
    }
    for x in (0..1000i64).rev() {
        set.remove(&x);
    }
    check_avl(&set.root);
    let items = in_order(&set.root);
    assert!(strictly_ascending(&items));
    assert_eq!(items.len(), set.len());
}

#[test]
fn balance_kept_under_interleaved_operations() {
    let mut set = AVLSet::new();
    let mut x: i64 = 7;
    for step in 0..3000 {
        x = (x * 7919 + 13) % 1009;
        if step % 3 == 2 {
            set.remove(&x);
        } else {
            set.add(x);
        }
        check_avl(&set.root);
    }
    let items = in_order(&set.root);
    assert!(strictly_ascending(&items));
    assert_eq!(items, in_order(&set.root));
    assert_eq!(items.len(), set.len());
}

#[test]
fn size_counts_distinct_items() {
    let mut set = AVLSet::new();
    assert!(set.add(4i64));
    assert!(!set.add(4));
    assert_eq!(set.len(), 1);
    assert!(!set.remove(&9));
    assert_eq!(set.len(), 1);
    assert!(set.remove(&4));
    assert_eq!(set.len(), 0);
    assert!(!set.remove(&4));
    assert_eq!(set.len(), 0);
    assert_eq!(set.height(), 0);
}

#[test]
fn empty_tree_queries() {
    let t: Bst<i64> = Bst::Empty;
    assert_eq!(t.min(), None);
    assert_eq!(t.max(), None);
    assert!(!t.search(&1));
    assert!(t.successor(&1).get_item().is_none());
    assert_eq!(t.height(), 0);
    assert!(in_order(&t).is_empty());
}

#[test]
fn min_max_successor_predecessor() {
    let mut t = Bst::new_leaf(50i64);
    for x in [30, 70, 20, 40, 60, 80, 35, 45] {
        t.insert(x);
    }
    assert_eq!(t.min(), Some(&20));
    assert_eq!(t.max(), Some(&80));
    assert_eq!(t.min_node().get_item(), Some(&20));
    assert_eq!(t.max_node().get_item(), Some(&80));
    assert_eq!(t.successor(&45).get_item(), Some(&50));
    assert_eq!(t.successor(&30).get_item(), Some(&35));
    assert_eq!(t.successor(&80).get_item(), None);
    assert_eq!(t.successor(&33).get_item(), None);
    assert_eq!(t.predecessor(&50).get_item(), Some(&45));
    assert_eq!(t.predecessor(&35).get_item(), Some(&30));
    assert_eq!(t.predecessor(&20).get_item(), None);
    assert_eq!(t.get_left().get_item().map(|x| *x < 50), Some(true));
    assert_eq!(t.get_right().get_item().map(|x| *x > 50), Some(true));
}

#[test]
fn rotations_through_balance() {
    // left-right case: 30, 10, 20 becomes 20 with children 10 and 30
    let mut t = Bst::new_leaf(30i64);
    t.insert(10);
    t.insert(20);
    assert_eq!(t.get_item(), Some(&20));
    assert_eq!(t.get_left().get_item(), Some(&10));
    assert_eq!(t.get_right().get_item(), Some(&30));
    assert_eq!(t.height(), 2);
    // right-left case
    let mut u = Bst::new_leaf(10i64);
    u.insert(30);
    u.insert(20);
    assert_eq!(u.get_item(), Some(&20));
    assert_eq!(u.height(), 2);
}

#[test]
fn delete_rebalances_after_taking_left_maximum() {
    // root 4 with left {2: 1, 3} and right {6: 5, 7: 8}; deleting 4 takes 3
    let mut t = Bst::new_leaf(4i64);
    for x in [2, 6, 1, 3, 5, 7, 8] {
        t.insert(x);
    }
    assert!(t.delete(&4));
    assert!(t.delete(&1));
    check_avl(&t);
    assert_eq!(in_order(&t), vec![2, 3, 5, 6, 7, 8]);
    assert!(!t.delete(&4));
}

#[test]
fn preorder_with_ancestors() {
    let mut t = Bst::new_leaf(2i64);
    t.insert(1);
    t.insert(3);
    let seen = std::cell::RefCell::new(Vec::new());
    let f = |x: &i64, ra: &Bst<i64>, la: &Bst<i64>| {
        seen.borrow_mut().push((*x, ra.get_item().copied(), la.get_item().copied()));
    };
    t.map_preorder(&Bst::Empty, &Bst::Empty, &f);
    assert_eq!(
        seen.into_inner(),
        vec![(2, None, None), (1, Some(2), None), (3, None, Some(2))]
    );
}
