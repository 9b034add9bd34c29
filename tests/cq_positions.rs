use csc_7b_fc::cq::CQ;

fn items(q: &CQ<i32>) -> Vec<i32> {
    let mut out = Vec::new();
    let mut it = q.iter();
    while let Some(x) = it.next() {
        out.push(*x);
    }
    out
}

#[test]
fn push_pop_enqueue_dequeue() {
    let mut q: CQ<i32> = CQ::new(4);
    assert_eq!(q.pop(), None);
    assert_eq!(q.dequeue(), None);
    assert_eq!(q.peek(), None);
    for x in [2, 4, 6, 8, 10] {
        q.push(x);
    }
    for x in [1, 3, 5] {
        q.enqueue(x);
    }
    assert_eq!(items(&q), vec![10, 8, 6, 4, 2, 1, 3, 5]);
    assert_eq!(q.peek(), Some(&10));
    assert_eq!(q.pop(), Some(10));
    assert_eq!(q.dequeue(), Some(5));
    assert_eq!(q.len(), 6);
    assert_eq!(items(&q), vec![8, 6, 4, 2, 1, 3]);
}

#[test]
fn positional_access() {
    let mut q: CQ<i32> = CQ::new(3);
    for x in [1, 2, 3, 4] {
        q.enqueue(x);
    }
    assert_eq!(q.get(2), Some(&3));
    assert_eq!(q.get(4), None);
    assert_eq!(q.set(0, 9), Some(1));
    assert_eq!(q.set(7, 9), None);
    assert!(q.swap(0, 3));
    assert!(!q.swap(0, 4));
    assert_eq!(items(&q), vec![4, 2, 3, 9]);
    if let Some(m) = q.get_mut(1) {
        *m *= 10;
    }
    assert!(q.get_mut(5).is_none());
    assert_eq!(items(&q), vec![4, 20, 3, 9]);
    let mut total = 0;
    q.map(&mut |x: &i32| total += *x);
    assert_eq!(total, 36);
}

#[test]
fn insert_and_remove_on_both_sides() {
    let mut q: CQ<i32> = CQ::new(8);
    for x in [10, 20, 30, 40, 50, 60] {
        q.enqueue(x);
    }
    assert!(q.insert(1, 15));
    assert!(q.insert(5, 45));
    assert!(!q.insert(8, 99));
    assert_eq!(items(&q), vec![10, 15, 20, 30, 40, 45, 50, 60]);
    assert!(q.insert(0, 5));
    assert_eq!(items(&q), vec![5, 10, 15, 20, 30, 40, 45, 50, 60]);
    assert_eq!(q.remove(1), Some(10));
    assert_eq!(q.remove(6), Some(50));
    assert_eq!(q.remove(9), None);
    assert_eq!(items(&q), vec![5, 15, 20, 30, 40, 45, 60]);
    assert_eq!(q.remove(0), Some(5));
    assert_eq!(q.remove(5), Some(60));
    assert_eq!(items(&q), vec![15, 20, 30, 40, 45]);
}

#[test]
fn ordered_operations() {
    let mut q: CQ<i32> = CQ::new(2);
    for x in [7, 3, 9, 1, 5, 3] {
        q.insert_sorted(x);
    }
    assert_eq!(items(&q), vec![1, 3, 3, 5, 7, 9]);
    assert!(q.is_sorted());
    assert_eq!(q.linear_search(&3), Some(1));
    assert_eq!(q.linear_search(&4), None);
    assert_eq!(q.binary_search(&7), Some(4));
    assert_eq!(q.binary_search(&1), Some(0));
    assert_eq!(q.binary_search(&8), None);
    q.push(100);
    assert!(!q.is_sorted());
}
