use rust_demo::sort::{
    bu_merge_sort, bubble_sort, heap_sort, insertion_sort, is_sort, quick_sort, selection_sort,
    shell_sort, td_merge_sort,
};

#[test]
fn bubble_sort_reverse_sorted() {
    let mut arr = vec![6, 5, 4, 3, 2, 1];
    bubble_sort(&mut arr);
    assert!(is_sort(&arr));
}

#[test]
fn bubble_sort_sorted() {
    let mut arr = vec![1, 2, 3, 4, 5, 6];
    bubble_sort(&mut arr);
    assert!(is_sort(&arr));
}

#[test]
fn bubble_sort_empty() {
    let mut arr: Vec<i32> = vec![];
    bubble_sort(&mut arr);
    assert!(is_sort(&arr));
}

#[test]
fn bubble_sort_one_element() {
    let mut arr = vec![1];
    bubble_sort(&mut arr);
    assert!(is_sort(&arr));
}

#[test]
fn bubble_sort_repeat() {
    let mut arr = vec![2, 2, 1, 3, 3, 1];
    bubble_sort(&mut arr);
    assert!(is_sort(&arr));
}

#[test]
fn heap_sort_reverse_sorted() {
    let mut arr = vec![6, 5, 4, 3, 2, 1];
    heap_sort(&mut arr);
    assert!(is_sort(&arr));
}

#[test]
fn heap_sort_sorted() {
    let mut arr = vec![1, 2, 3, 4, 5, 6];
    heap_sort(&mut arr);
    assert!(is_sort(&arr));
}

#[test]
fn heap_sort_empty() {
    let mut arr: Vec<i32> = vec![];
    heap_sort(&mut arr);
    assert!(is_sort(&arr));
}

#[test]
fn heap_sort_one_element() {
    let mut arr = vec![1];
    heap_sort(&mut arr);
    assert!(is_sort(&arr));
}

#[test]
fn heap_sort_repeat() {
    let mut arr = vec![2, 2, 1, 3, 3, 1];
    heap_sort(&mut arr);
    assert!(is_sort(&arr));
}

#[test]
fn insertion_sort_reverse_sorted() {
    let mut arr = vec![6, 5, 4, 3, 2, 1];
    insertion_sort(&mut arr);
    assert!(is_sort(&arr));
}

#[test]
fn insertion_sort_sorted() {
    let mut arr = vec![1, 2, 3, 4, 5, 6];
    insertion_sort(&mut arr);
    assert!(is_sort(&arr));
}

#[test]
fn insertion_sort_empty() {
    let mut arr: Vec<i32> = vec![];
    insertion_sort(&mut arr);
    assert!(is_sort(&arr));
}

#[test]
fn insertion_sort_one_element() {
    let mut arr = vec![1];
    insertion_sort(&mut arr);
    assert!(is_sort(&arr));
}

#[test]
fn insertion_sort_repeat() {
    let mut arr = vec![2, 2, 1, 3, 3, 1];
    insertion_sort(&mut arr);
    assert!(is_sort(&arr));
}

#[test]
fn quick_sort_reverse_sorted() {
    let mut arr = vec![6, 5, 4, 3, 2, 1];
    quick_sort(&mut arr);
    assert!(is_sort(&arr));
}

#[test]
fn quick_sort_sorted() {
    let mut arr = vec![1, 2, 3, 4, 5, 6];
    quick_sort(&mut arr);
    assert!(is_sort(&arr));
}

#[test]
fn quick_sort_empty() {
    let mut arr: Vec<i32> = vec![];
    quick_sort(&mut arr);
    assert!(is_sort(&arr));
}

#[test]
fn quick_sort_one_element() {
    let mut arr = vec![1];
    quick_sort(&mut arr);
    assert!(is_sort(&arr));
}

#[test]
fn quick_sort_repeat() {
    let mut arr = vec![2, 2, 1, 3, 3, 1];
    quick_sort(&mut arr);
    assert!(is_sort(&arr));
}

#[test]
fn selection_sort_reverse_sorted() {
    let mut arr = vec![6, 5, 4, 3, 2, 1];
    selection_sort(&mut arr);
    assert!(is_sort(&arr));
}

#[test]
fn selection_sort_sorted() {
    let mut arr = vec![1, 2, 3, 4, 5, 6];
    selection_sort(&mut arr);
    assert!(is_sort(&arr));
}

#[test]
fn selection_sort_empty() {
    let mut arr: Vec<i32> = vec![];
    selection_sort(&mut arr);
    assert!(is_sort(&arr));
}

#[test]
fn selection_sort_one_element() {
    let mut arr = vec![1];
    selection_sort(&mut arr);
    assert!(is_sort(&arr));
}

#[test]
fn selection_sort_repeat() {
    let mut arr = vec![2, 2, 1, 3, 3, 1];
    selection_sort(&mut arr);
    assert!(is_sort(&arr));
}

#[test]
fn shell_sort_reverse_sorted() {
    let mut arr = vec![6, 5, 4, 3, 2, 1];
    shell_sort(&mut arr);
    assert!(is_sort(&arr));
}

#[test]
fn shell_sort_sorted() {
    let mut arr = vec![1, 2, 3, 4, 5, 6];
    shell_sort(&mut arr);
    assert!(is_sort(&arr));
}

#[test]
fn shell_sort_empty() {
    let mut arr: Vec<i32> = vec![];
    shell_sort(&mut arr);
    assert!(is_sort(&arr));
}

#[test]
fn shell_sort_one_element() {
    let mut arr = vec![1];
    shell_sort(&mut arr);
    assert!(is_sort(&arr));
}

#[test]
fn shell_sort_repeat() {
    let mut arr = vec![2, 2, 1, 3, 3, 1];
    shell_sort(&mut arr);
    assert!(is_sort(&arr));
}

#[test]
fn merge_sort_empty() {
    let mut arr1: Vec<i32> = vec![];
    td_merge_sort(&mut arr1);
    assert!(is_sort(&arr1));

    let mut arr2: Vec<i32> = vec![];
    bu_merge_sort(&mut arr2);
    assert!(is_sort(&arr2));
}

#[test]
fn merge_sort_reverse_sorted() {
    let mut arr1: Vec<i32> = vec![6, 5, 3, 2, 1];
    td_merge_sort(&mut arr1);
    assert!(is_sort(&arr1));

    let mut arr2: Vec<i32> = vec![6, 5, 3, 2, 1];
    bu_merge_sort(&mut arr2);
    assert!(is_sort(&arr2));
}

#[test]
fn merge_sort_sorted() {
    let mut arr1: Vec<i32> = vec![1, 2, 3, 4, 5, 6];
    td_merge_sort(&mut arr1);
    assert!(is_sort(&arr1));

    let mut arr2: Vec<i32> = vec![1, 2, 3, 4, 5, 6];
    bu_merge_sort(&mut arr2);
    assert!(is_sort(&arr2));
}

#[test]
fn merge_sort_one_element() {
    let mut arr1: Vec<i32> = vec![1];
    td_merge_sort(&mut arr1);
    assert!(is_sort(&arr1));

    let mut arr2: Vec<i32> = vec![1];
    bu_merge_sort(&mut arr2);
    assert!(is_sort(&arr2));
}

#[test]
fn merge_sort_repeat() {
    let mut arr1: Vec<i32> = vec![2, 2, 1, 3, 3, 1];
    td_merge_sort(&mut arr1);
    assert!(is_sort(&arr1));

    let mut arr2: Vec<i32> = vec![2, 2, 1, 3, 3, 1];
    bu_merge_sort(&mut arr2);
    assert!(is_sort(&arr2));
}

#[test]
fn is_sorted() {
    assert!(is_sort(&[] as &[isize]));
    assert!(is_sort(&["a"]));
    assert!(is_sort(&[1, 2, 3]));
    assert!(is_sort(&[0, 1, 1]));

    assert_eq!(is_sort(&[1, 0]), false);
    assert_eq!(is_sort(&[2, 3, 1, -1, 5]), false);
}

fn all_sorts() -> Vec<fn(&mut [i32])> {
    vec![
        bubble_sort,
        heap_sort,
        insertion_sort,
        quick_sort,
        selection_sort,
        shell_sort,
        td_merge_sort,
        bu_merge_sort,
    ]
}

#[test]
fn every_sort_gives_the_exact_ascending_order() {
    let input = vec![5, -3, 9, 0, 9, 2, -3, 7, 1, 8, 4, 6, 0, 11, -20, 3, 3];
    let mut expected = input.clone();
    expected.sort();
    for sort in all_sorts() {
        let mut arr = input.clone();
        sort(&mut arr);
        assert_eq!(arr, expected);
    }
}

#[test]
fn every_sort_handles_equal_elements() {
    for sort in all_sorts() {
        let mut arr = vec![7, 7, 7, 7, 7];
        sort(&mut arr);
        assert_eq!(arr, vec![7, 7, 7, 7, 7]);
        let mut arr = vec![2, 1, 2, 1, 2, 1, 2];
        sort(&mut arr);
        assert_eq!(arr, vec![1, 1, 1, 2, 2, 2, 2]);
    }
}

#[test]
fn every_sort_handles_extremes_and_odd_lengths() {
    for sort in all_sorts() {
        let mut arr = vec![i32::MAX, 0, i32::MIN, -1, 1, i32::MAX, i32::MIN];
        sort(&mut arr);
        assert_eq!(arr, vec![i32::MIN, i32::MIN, -1, 0, 1, i32::MAX, i32::MAX]);
        let mut arr = vec![3, 1, 2];
        sort(&mut arr);
        assert_eq!(arr, vec![1, 2, 3]);
    }
}

#[test]
fn every_sort_on_a_longer_shuffle() {
    let mut input = Vec::new();
    let mut x: i64 = 17;
    for _ in 0..200 {
        x = (x * 1103515245 + 12345) % 2147483648;
        input.push((x % 1000) as i32 - 500);
    }
    let mut expected = input.clone();
    expected.sort();
    for sort in all_sorts() {
        let mut arr = input.clone();
        sort(&mut arr);
        assert_eq!(arr, expected);
    }
}
