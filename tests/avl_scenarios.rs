use csc_7b_fc::avlnavigator::AVLNavigator;
use csc_7b_fc::avltree::{AVLSet, Bst};

fn collect(set: &AVLSet<i32>) -> Vec<i32> {
    let mut out = Vec::new();
    let mut it = set.iter();
    while let Some(x) = it.next() {
        out.push(*x);
    }
    out
}

fn scenario_set() -> AVLSet<i32> {
    let mut set = AVLSet::new();
    for x in [5, 2, 7, 8, 1, 2, 4, 3, 9] {
        set.add(x);
    }
    set
}

#[test]
fn insert_search_delete_scenario() {
    let mut set = scenario_set();
    assert_eq!(set.len(), 8);
    assert!(set.contains(&7));
    assert!(!set.contains(&11));
    assert_eq!(collect(&set), vec![1, 2, 3, 4, 5, 7, 8, 9]);
    assert!(set.remove(&7));
    assert!(set.remove(&4));
    assert_eq!(collect(&set), vec![1, 2, 3, 5, 8, 9]);
    assert!(!set.contains(&7));
    assert_eq!(set.len(), 6);
}

#[test]
fn navigator_scenario() {
    let mut set = scenario_set();
    set.remove(&7);
    set.remove(&4);
    let mut nav = set.get_navigator();
    assert!(nav.seek(&3));
    assert_eq!(nav.current_item(), Some(&3));
    assert!(nav.goto_predecessor());
    assert_eq!(nav.current_item(), Some(&2));
    assert!(nav.goto_successor());
    assert!(nav.goto_successor());
    assert_eq!(nav.current_item(), Some(&5));
}

#[test]
fn tree_scenario_on_bare_tree() {
    let mut tree = Bst::<i32>::new_leaf(5);
    for x in [2, 7, 8, 1, 2, 4, 3, 9] {
        tree.insert(x);
    }
    assert!(tree.search(&7));
    assert!(!tree.search(&11));
    tree.delete(&7);
    tree.delete(&4);
    assert!(!tree.search(&7));
    let mut out = Vec::new();
    let mut it = tree.iter();
    while let Some(x) = it.next() {
        out.push(*x);
    }
    assert_eq!(out, vec![1, 2, 3, 5, 8, 9]);
    let mut nav = AVLNavigator::start(&tree);
    assert!(nav.seek(&9));
    assert!(!nav.goto_successor());
    assert_eq!(nav.current_item(), Some(&9));
}
