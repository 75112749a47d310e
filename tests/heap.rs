use rust_demo::data_structures::Heap;

#[test]
fn empty_heap() {
    let mut heap: Heap<i32> = Heap::new_min();
    assert!(heap.is_empty());
    assert_eq!(heap.len(), 0);
    assert_eq!(heap.pop(), None);
}

#[test]
fn min_heap() {
    let mut heap = Heap::new_min();

    heap.push(4);
    heap.push(2);
    heap.push(9);
    heap.push(10);

    assert_eq!(heap.len(), 4);
    assert_eq!(heap.pop(), Some(2));
    assert_eq!(heap.pop(), Some(4));
    assert_eq!(heap.pop(), Some(9));
    assert_eq!(heap.pop(), Some(10));

    heap.push(1);
    assert_eq!(heap.pop(), Some(1));
}

#[test]
fn max_heap() {
    let mut heap = Heap::new_max();

    heap.push(4);
    heap.push(2);
    heap.push(9);
    heap.push(10);

    assert_eq!(heap.len(), 4);
    assert_eq!(heap.pop(), Some(10));
    assert_eq!(heap.pop(), Some(9));
    assert_eq!(heap.pop(), Some(4));

    heap.push(1);
    assert_eq!(heap.pop(), Some(2));
}

struct Point(i32, i32);

impl Default for Point {
    fn default() -> Self {
        Point(0, 0)
    }
}

#[test]
fn custom_comparator_heap() {
    let mut heap = Heap::new(|p1: &Point, p2: &Point| p1.0.partial_cmp(&p2.0));

    heap.push(Point(1, 5));
    heap.push(Point(3, 10));
    heap.push(Point(-2, 4));

    assert_eq!(heap.len(), 3);
    assert_eq!(heap.pop().unwrap().0, -2);
    assert_eq!(heap.pop().unwrap().0, 1);

    heap.push(Point(50, 34));
    assert_eq!(heap.pop().unwrap().0, 3);
}

#[test]
fn min_heap_drains_in_order() {
    let mut heap = Heap::new_min();
    for v in [5, 3, 8, 1, 9, 2, 7, 3, 0, 6] {
        heap.push(v);
    }
    assert_eq!(heap.len(), 10);
    let mut out = Vec::new();
    while let Some(v) = heap.pop() {
        out.push(v);
    }
    assert_eq!(out, vec![0, 1, 2, 3, 3, 5, 6, 7, 8, 9]);
    assert!(heap.is_empty());
}
