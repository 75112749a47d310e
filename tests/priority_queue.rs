use rust_demo::heap::PriorityQueue;

#[test]
fn test_new() {
    let pq: PriorityQueue<i32> = PriorityQueue::new(1);

    assert_eq!(pq.size(), 0);
    assert!(pq.is_empty());
}

#[test]
fn test_push() {
    let mut pq = PriorityQueue::new(1);
    pq.push(1);

    assert_eq!(pq.size(), 1);
    assert!(pq.is_full());
}

#[test]
fn test_clear() {
    let mut pq = PriorityQueue::new(3);

    pq.push(1);
    pq.push(2);
    pq.push(3);
    assert_eq!(pq.size(), 3);
    assert!(pq.is_full());

    pq.clear();
    assert_eq!(pq.size(), 0);
    assert!(pq.is_empty());
}

#[test]
fn test_pop() {
    let mut pq = PriorityQueue::new(3);

    pq.push(1);
    pq.push(3);
    pq.push(2);

    assert_eq!(pq.size(), 3);
    assert!(pq.is_full());

    assert_eq!(pq.pop(), 3);
    assert_eq!(pq.pop(), 2);
    assert_eq!(pq.pop(), 1);

    assert_eq!(pq.size(), 0);
    assert!(pq.is_empty());
}

#[test]
fn test_custom_compartor() {
    let compartor = |i1: &i32, i2: &i32| i2.partial_cmp(i1);
    let mut pq = PriorityQueue::with_compare(3, compartor);

    pq.push(1);
    pq.push(3);
    pq.push(2);

    assert_eq!(pq.size(), 3);
    assert!(pq.is_full());

    assert_eq!(pq.pop(), 1);
    assert_eq!(pq.pop(), 2);
    assert_eq!(pq.pop(), 3);

    assert_eq!(pq.size(), 0);
    assert!(pq.is_empty());
}

#[test]
fn pop_hands_back_what_was_pushed() {
    let mut pq = PriorityQueue::new(5);
    for v in [4, 8, 1, 8, 5] {
        pq.push(v);
    }
    assert!(pq.is_full());
    let mut out = Vec::new();
    while !pq.is_empty() {
        out.push(pq.pop());
    }
    out.sort();
    assert_eq!(out, vec![1, 4, 5, 8, 8]);
}

#[test]
fn pop_always_gives_the_greatest() {
    let mut pq = PriorityQueue::new(64);
    pq.push(29);
    pq.push(30);
    pq.push(4);
    assert_eq!(pq.pop(), 30);
    pq.push(5);
    pq.push(32);
    pq.push(2);
    assert_eq!(pq.pop(), 32);
    assert_eq!(pq.pop(), 29);
    pq.push(20);
    pq.push(32);
    assert_eq!(pq.pop(), 32);
    pq.push(24);
    pq.push(50);
    assert_eq!(pq.pop(), 50);
    pq.push(39);
    pq.push(7);
    assert_eq!(pq.pop(), 39);
    pq.push(31);
    assert_eq!(pq.pop(), 31);
    pq.push(50);
    assert_eq!(pq.pop(), 50);
    pq.push(14);
    assert_eq!(pq.pop(), 24);
    pq.push(48);
    assert_eq!(pq.pop(), 48);
    assert_eq!(pq.pop(), 20);
    pq.push(29);
    assert_eq!(pq.pop(), 29);
    pq.push(30);
    assert_eq!(pq.pop(), 30);
    assert_eq!(pq.pop(), 14);
    pq.push(20);
    pq.push(12);
    assert_eq!(pq.pop(), 20);
    assert_eq!(pq.pop(), 12);
    pq.push(43);
    assert_eq!(pq.pop(), 43);
    pq.push(50);
    pq.push(7);
    assert_eq!(pq.size(), 6);
}
