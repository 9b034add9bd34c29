use csc_7b_fc::avltree::Bst;
use csc_7b_fc::eytzinger::Eytzinger;

fn tree_of(items: &[i32]) -> Bst<i32> {
    let mut t = Bst::Empty;
    for x in items {
        t.insert(*x);
    }
    t
}

#[test]
fn layout_finds_every_item() {
    let items = [5, 2, 7, 8, 1, 4, 3, 9];
    let e = Eytzinger::from_bst(tree_of(&items));
    assert_eq!(e.len(), 8);
    for x in items {
        assert!(e.search(&x));
    }
    for x in [0, 6, 10, -3] {
        assert!(!e.search(&x));
    }
}

#[test]
fn layout_of_larger_tree() {
    let items: Vec<i32> = (0..500).map(|x| (x * 37) % 1000).collect();
    let e = Eytzinger::from_bst(tree_of(&items));
    assert_eq!(e.len(), 500);
    for x in &items {
        assert!(e.search(x));
    }
    assert!(!e.search(&1));
}

#[test]
fn empty_layouts() {
    let e: Eytzinger<i32> = Eytzinger::new();
    assert_eq!(e.len(), 0);
    assert!(!e.search(&1));
    let e: Eytzinger<i32> = Eytzinger::with_capacity(8);
    assert_eq!(e.len(), 0);
    assert!(!e.search(&1));
    let e = Eytzinger::from_bst(Bst::<i32>::Empty);
    assert_eq!(e.len(), 0);
    assert!(!e.search(&0));
}
