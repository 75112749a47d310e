use rust_demo::data_structures::UnionFind;

#[test]
fn test_union_find() {
    let mut uf = UnionFind::new(10);
    assert_eq!(uf.find(0), 0);
    assert_eq!(uf.find(1), 1);
    assert_eq!(uf.find(2), 2);
    assert_eq!(uf.find(3), 3);
    assert_eq!(uf.find(4), 4);
    assert_eq!(uf.find(5), 5);
    assert_eq!(uf.find(6), 6);
    assert_eq!(uf.find(7), 7);
    assert_eq!(uf.find(8), 8);
    assert_eq!(uf.find(9), 9);

    assert!(uf.union(0, 1));
    assert!(uf.union(1, 2));
    assert!(uf.union(2, 3));
    assert!(uf.union(3, 4));
    assert!(uf.union(4, 5));
    assert!(uf.union(5, 6));
    assert!(uf.union(6, 7));
    assert!(uf.union(7, 8));
    assert!(uf.union(8, 9));
    assert_eq!(uf.union(9, 0), false);

    assert_eq!(1, uf.count());
}

#[test]
fn separate_groups_stay_apart() {
    let mut uf = UnionFind::new(6);
    assert_eq!(uf.count(), 6);
    assert!(uf.union(0, 2));
    assert!(uf.union(4, 2));
    assert!(uf.union(1, 3));
    assert_eq!(uf.count(), 3);
    assert!(uf.is_same_set(0, 4));
    assert!(uf.is_same_set(3, 1));
    assert!(!uf.is_same_set(0, 1));
    assert!(!uf.is_same_set(5, 3));
    assert_eq!(uf.find(0), uf.find(4));
    assert!(uf.union(5, 1));
    assert!(uf.is_same_set(5, 3));
    assert_eq!(uf.union(3, 5), false);
    assert_eq!(uf.count(), 2);
}

#[test]
fn union_by_size_keeps_the_larger_root() {
    let mut uf = UnionFind::new(4);
    assert!(uf.union(0, 1));
    let big = uf.find(0);
    assert!(uf.union(2, 0));
    assert_eq!(uf.find(2), big);
}

#[test]
fn empty_union_find() {
    let uf = UnionFind::new(0);
    assert_eq!(uf.count(), 0);
}
