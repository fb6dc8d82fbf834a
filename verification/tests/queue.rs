use routing::queue::MinQueue;

#[test]
fn empty_queue_gives_nothing() {
    let mut q = MinQueue::new();
    assert_eq!(q.len(), 0);
    assert_eq!(q.pop(), None);
    assert_eq!(q.len(), 0);
}

#[test]
fn queue_hands_out_by_cost() {
    let mut q = MinQueue::new();
    for (cost, node) in [(5u32, 0usize), (1, 1), (9, 2), (3, 3), (7, 4), (2, 5), (8, 6)] {
        q.push(cost, node);
    }
    assert_eq!(q.len(), 7);
    let mut got = Vec::new();
    while let Some(e) = q.pop() {
        got.push(e);
    }
    assert_eq!(got, vec![(1, 1), (2, 5), (3, 3), (5, 0), (7, 4), (8, 6), (9, 2)]);
    assert_eq!(q.len(), 0);
}

#[test]
fn queue_keeps_equal_entries() {
    let mut q = MinQueue::new();
    q.push(4, 1);
    q.push(4, 1);
    q.push(4, 2);
    q.push(0, 9);
    assert_eq!(q.pop(), Some((0, 9)));
    let mut rest = vec![q.pop().unwrap(), q.pop().unwrap(), q.pop().unwrap()];
    rest.sort();
    assert_eq!(rest, vec![(4, 1), (4, 1), (4, 2)]);
    assert_eq!(q.pop(), None);
}

#[test]
fn queue_takes_pushes_between_pops() {
    let mut q = MinQueue::new();
    q.push(10, 0);
    q.push(20, 1);
    assert_eq!(q.pop(), Some((10, 0)));
    q.push(5, 2);
    q.push(u32::MAX, 3);
    q.push(15, 4);
    assert_eq!(q.pop(), Some((5, 2)));
    assert_eq!(q.pop(), Some((15, 4)));
    assert_eq!(q.pop(), Some((20, 1)));
    assert_eq!(q.pop(), Some((u32::MAX, 3)));
    assert_eq!(q.pop(), None);
}

#[test]
fn queue_sorts_many() {
    let mut q = MinQueue::new();
    let mut x: u32 = 12345;
    let mut want = Vec::new();
    for i in 0..500usize {
        x = x.wrapping_mul(1_103_515_245).wrapping_add(12_345);
        let cost = x % 1000;
        q.push(cost, i);
        want.push(cost);
    }
    want.sort();
    let mut got = Vec::new();
    while let Some((cost, _)) = q.pop() {
        got.push(cost);
    }
    assert_eq!(got, want);
}
