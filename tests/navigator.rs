use csc_7b_fc::avlmap::{newpair, KVPair};
use csc_7b_fc::avlnavigator::AVLNavigator;
use csc_7b_fc::avltree::{AVLSet, Bst};

fn set_of(items: &[u32]) -> AVLSet<u32> {
    let mut s = AVLSet::new();
    for x in items {
        s.add(*x);
    }
    s
}

#[test]
fn failed_seek_restores_position_and_path() {
    let s = set_of(&[10, 5, 15, 3, 7, 12, 20]);
    let mut nav = s.get_navigator();
    assert!(nav.go_left());
    assert!(nav.go_right());
    let before = nav.current_item().copied();
    assert!(!nav.seek(&8));
    assert_eq!(nav.current_item().copied(), before);
    assert!(nav.go_up());
    assert_eq!(nav.current_item(), Some(&5));
    assert!(nav.go_up());
    assert_eq!(nav.current_item(), Some(&10));
    assert!(!nav.go_up());
}

#[test]
fn successor_predecessor_round_trip() {
    let items = [10u32, 5, 15, 3, 7, 12, 20, 1, 4, 6, 8];
    let s = set_of(&items);
    for v in items {
        let mut nav = s.get_navigator();
        assert!(nav.seek(&v));
        if nav.goto_successor() {
            assert!(nav.goto_predecessor());
            assert_eq!(nav.current_item(), Some(&v));
        } else {
            assert_eq!(v, 20);
        }
        let mut nav = s.get_navigator();
        assert!(nav.seek(&v));
        if nav.goto_predecessor() {
            assert!(nav.goto_successor());
            assert_eq!(nav.current_item(), Some(&v));
        } else {
            assert_eq!(v, 1);
        }
    }
}

#[test]
fn walk_in_order_with_successor() {
    let s = set_of(&[9, 2, 7, 4, 1, 8, 3]);
    let mut nav = s.get_navigator();
    assert!(nav.goto_leftmost());
    let mut seen = vec![*nav.current_item().unwrap()];
    while nav.goto_successor() {
        seen.push(*nav.current_item().unwrap());
    }
    assert_eq!(seen, vec![1, 2, 3, 4, 7, 8, 9]);
    assert!(nav.goto_root());
    assert!(nav.goto_rightmost());
    assert_eq!(nav.current_item(), Some(&9));
    assert!(!nav.goto_successor());
}

#[test]
fn sibling_aunt_and_root() {
    let s = set_of(&[4, 2, 6, 1, 3, 5, 7]);
    let mut nav = s.get_navigator();
    assert!(!nav.goto_sibling());
    assert!(!nav.goto_root());
    assert!(nav.go_left());
    assert!(nav.go_left());
    assert_eq!(nav.current_item(), Some(&1));
    assert!(nav.goto_sibling());
    assert_eq!(nav.current_item(), Some(&3));
    // the path now records the right side: the predecessor of 3 is 2
    assert!(nav.goto_predecessor());
    assert_eq!(nav.current_item(), Some(&2));
    assert!(nav.go_right());
    assert!(nav.goto_aunt());
    assert_eq!(nav.current_item(), Some(&6));
    assert!(nav.go_left());
    assert!(nav.goto_uncle());
    assert_eq!(nav.current_item(), Some(&2));
    assert!(nav.goto_root());
    assert_eq!(nav.current_item(), Some(&4));
    assert!(nav.goto_parent() == false);
    assert!(std::ptr::eq(nav.get_current(), nav.now()));
}

#[test]
fn navigator_on_empty_tree() {
    let t: Bst<u32> = Bst::Empty;
    let mut nav = t.new_navigator();
    assert_eq!(nav.current_item(), None);
    assert!(!nav.go_left());
    assert!(!nav.go_right());
    assert!(!nav.goto_leftmost());
    assert!(!nav.goto_rightmost());
    assert!(!nav.goto_successor());
    assert!(!nav.goto_predecessor());
    assert!(!nav.seek(&1));
    assert!(!nav.goto_aunt());
}

#[test]
fn seek_by_key_in_pairs() {
    let mut t: Bst<KVPair<u32, &str>> = Bst::new_leaf(newpair(5, "five"));
    t.insert(newpair(2, "two"));
    t.insert(newpair(8, "eight"));
    let mut nav = AVLNavigator::start(&t);
    assert!(nav.seek_key(&8));
    assert_eq!(nav.current_item().map(|p| p.val), Some("eight"));
    assert!(!nav.seek_key(&3));
    assert_eq!(nav.current_item().map(|p| p.key), Some(8));
    assert!(nav.goto_root());
    assert!(nav.seek_key(&2));
    assert_eq!(nav.current_item().map(|p| p.val), Some("two"));
}

#[test]
fn failed_aunt_stays_put() {
    let s = set_of(&[4, 2, 6, 1, 3]);
    let mut nav = s.get_navigator();
    assert!(nav.go_left());
    assert!(!nav.goto_aunt());
    assert_eq!(nav.current_item(), Some(&2));
    assert!(nav.go_up());
    assert!(!nav.go_up());
    let mut nav = s.get_navigator();
    assert!(nav.go_right());
    assert!(!nav.goto_uncle());
    assert_eq!(nav.current_item(), Some(&6));
    assert!(nav.go_up());
    assert_eq!(nav.current_item(), Some(&4));
}
