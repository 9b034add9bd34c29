use csc_7b_fc::circularqueue::CircularQueue;

fn items(cq: &CircularQueue<usize, 4>) -> Vec<usize> {
    let mut out = Vec::new();
    let mut it = cq.iter();
    while let Some(x) = it.next() {
        out.push(*x);
    }
    out
}

#[test]
fn push_both_ends_and_grow() {
    let mut cq = CircularQueue::<usize, 4>::new();
    assert_eq!(cq.capacity(), 4);
    for i in 0..5 {
        cq.push_back(i * 2);
        cq.push_front(i * 2 + 1);
    }
    assert_eq!(cq.len(), 10);
    assert_eq!(cq.capacity(), 16);
    assert_eq!(items(&cq), vec![9, 7, 5, 3, 1, 0, 2, 4, 6, 8]);
}

#[test]
fn pop_both_ends() {
    let mut cq = CircularQueue::<usize, 4>::new();
    assert_eq!(cq.pop_front(), None);
    assert_eq!(cq.pop_back(), None);
    for i in 0..6 {
        cq.push_back(i);
    }
    assert_eq!(cq.pop_front(), Some(0));
    assert_eq!(cq.pop_back(), Some(5));
    assert_eq!(items(&cq), vec![1, 2, 3, 4]);
    cq.push_front(7);
    assert_eq!(cq.pop_front(), Some(7));
    assert_eq!(cq.len(), 4);
}

#[test]
fn mapfun_changes_every_item() {
    let mut cq = CircularQueue::<usize, 4>::new();
    for i in 0..6 {
        cq.push_back(i);
    }
    cq.mapfun(|x| *x = *x + 1);
    assert_eq!(items(&cq), vec![1, 2, 3, 4, 5, 6]);
    let mut sum = 0;
    cq.mapfun(|x| sum += *x);
    assert_eq!(sum, 21);
}
