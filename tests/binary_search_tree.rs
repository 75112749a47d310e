use rust_demo::data_structures::BinarySearchTree;

fn perpare_tree() -> BinarySearchTree<i32> {
    let mut result = BinarySearchTree::new();
    result.insert(1);
    result.insert(2);
    result.insert(3);
    result.insert(5);
    result.insert(6);
    result.insert(7);
    result
}

#[test]
fn test_search() {
    let tree = perpare_tree();
    assert!(tree.search(&1));
    assert!(tree.search(&2));
    assert!(tree.search(&3));

    assert!(!tree.search(&4));
}

#[test]
fn test_max_and_min() {
    let tree = perpare_tree();
    assert_eq!(tree.max(), Some(&7));
    assert_eq!(tree.min(), Some(&1));
}

#[test]
fn test_floor_and_ceil() {
    let tree = perpare_tree();
    assert_eq!(tree.floor(&4), Some(&3));
    assert_eq!(tree.ceil(&4), Some(&5));
}

#[test]
fn empty_tree_has_no_answers() {
    let tree: BinarySearchTree<i32> = BinarySearchTree::new();
    assert!(!tree.search(&1));
    assert_eq!(tree.max(), None);
    assert_eq!(tree.min(), None);
    assert_eq!(tree.floor(&1), None);
    assert_eq!(tree.ceil(&1), None);
}

#[test]
fn floor_and_ceil_at_the_edges() {
    let mut tree = BinarySearchTree::new();
    for v in [50, 30, 70, 20, 40, 60, 80, 30] {
        tree.insert(v);
    }
    assert_eq!(tree.floor(&10), None);
    assert_eq!(tree.ceil(&90), None);
    assert_eq!(tree.floor(&30), Some(&30));
    assert_eq!(tree.ceil(&30), Some(&30));
    assert_eq!(tree.floor(&65), Some(&60));
    assert_eq!(tree.ceil(&65), Some(&70));
    assert_eq!(tree.floor(&1000), Some(&80));
    assert_eq!(tree.ceil(&-5), Some(&20));
    assert_eq!(tree.max(), Some(&80));
    assert_eq!(tree.min(), Some(&20));
    assert!(tree.search(&40));
    assert!(!tree.search(&45));
}
