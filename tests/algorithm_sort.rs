use rust_demo::algorithm::sort::{BuMerge, Bubble, Insert, Quick, Select, Shell, Sort, TdMerge};

#[test]
fn tests_test_sort() {
    let mut arr = [3, 2, 1];
    Bubble::sort(&mut arr);
    assert_eq!([1, 2, 3], arr);
}

#[test]
fn tests_test_sorted() {
    let mut arr = [1, 2, 3];
    Bubble::sort(&mut arr);
    assert_eq!([1, 2, 3], arr);
}

#[test]
fn tests_test_repeat() {
    let mut arr = [2, 1, 1, 3];
    Bubble::sort(&mut arr);
    assert_eq!([1, 1, 2, 3], arr);
}

#[test]
fn tests_test_empty() {
    let mut arr: [i32; 0] = [];
    Bubble::sort(&mut arr);
    assert_eq!(0, arr.len());
}

#[test]
fn select_test_sort() {
    let mut arr = [3, 2, 1];
    Select::sort(&mut arr);
    assert_eq!([1, 2, 3], arr);
}

#[test]
fn select_test_sorted() {
    let mut arr = [1, 2, 3];
    Select::sort(&mut arr);
    assert_eq!([1, 2, 3], arr);
}

#[test]
fn select_test_repeat() {
    let mut arr = [2, 1, 1, 3];
    Select::sort(&mut arr);
    assert_eq!([1, 1, 2, 3], arr);
}

#[test]
fn select_test_empty() {
    let mut arr: [i32; 0] = [];
    Select::sort(&mut arr);
    assert_eq!(0, arr.len());
}

#[test]
fn insert_test_sort() {
    let mut arr = [3, 2, 1];
    Insert::sort(&mut arr);
    assert_eq!([1, 2, 3], arr);
}

#[test]
fn insert_test_sorted() {
    let mut arr = [1, 2, 3];
    Insert::sort(&mut arr);
    assert_eq!([1, 2, 3], arr);
}

#[test]
fn insert_test_repeat() {
    let mut arr = [2, 1, 1, 3];
    Insert::sort(&mut arr);
    assert_eq!([1, 1, 2, 3], arr);
}

#[test]
fn insert_test_empty() {
    let mut arr: [i32; 0] = [];
    Insert::sort(&mut arr);
    assert_eq!(0, arr.len());
}

#[test]
fn td_merge_test_sort() {
    let mut arr = [8, 7, 6, 5, 4, 3, 2, 1];
    TdMerge::sort(&mut arr);
    assert_eq!([1, 2, 3, 4, 5, 6, 7, 8], arr);
}

#[test]
fn td_merge_test_sorted() {
    let mut arr = [1, 2, 3];
    TdMerge::sort(&mut arr);
    assert_eq!([1, 2, 3], arr);
}

#[test]
fn td_merge_test_repeat() {
    let mut arr = [2, 1, 1, 3];
    TdMerge::sort(&mut arr);
    assert_eq!([1, 1, 2, 3], arr);
}

#[test]
fn td_merge_test_empty() {
    let mut arr: [i32; 0] = [];
    TdMerge::sort(&mut arr);
    assert_eq!(0, arr.len());
}

#[test]
fn bu_merge_test_sort() {
    let mut arr = [3, 2, 1];
    BuMerge::sort(&mut arr);
    assert_eq!([1, 2, 3], arr);
}

#[test]
fn bu_merge_test_sorted() {
    let mut arr = [1, 2, 3];
    BuMerge::sort(&mut arr);
    assert_eq!([1, 2, 3], arr);
}

#[test]
fn bu_merge_test_repeat() {
    let mut arr = [2, 1, 1, 3];
    BuMerge::sort(&mut arr);
    assert_eq!([1, 1, 2, 3], arr);
}

#[test]
fn bu_merge_test_empty() {
    let mut arr: [i32; 0] = [];
    BuMerge::sort(&mut arr);
    assert_eq!(0, arr.len());
}

#[test]
fn quick_test_sort() {
    let mut arr = [9, 8, 7, 6, 5, 4, 3, 2, 1];
    Quick::sort(&mut arr);
    assert_eq!([1, 2, 3, 4, 5, 6, 7, 8, 9], arr);
}

#[test]
fn quick_test_sorted() {
    let mut arr = [1, 2, 3];
    Quick::sort(&mut arr);
    assert_eq!([1, 2, 3], arr);
}

#[test]
fn quick_test_repeat() {
    let mut arr = [2, 1, 1, 3];
    Quick::sort(&mut arr);
    assert_eq!([1, 1, 2, 3], arr);
}

#[test]
fn quick_test_empty() {
    let mut arr: [i32; 0] = [];
    Quick::sort(&mut arr);
    assert_eq!(0, arr.len());
}

#[test]
fn shell_test_sort() {
    let mut arr = [3, 2, 1];
    Shell::sort(&mut arr);
    assert_eq!([1, 2, 3], arr);
}

#[test]
fn shell_test_sorted() {
    let mut arr = [1, 2, 3];
    Shell::sort(&mut arr);
    assert_eq!([1, 2, 3], arr);
}

#[test]
fn shell_test_repeat() {
    let mut arr = [2, 1, 1, 3];
    Shell::sort(&mut arr);
    assert_eq!([1, 1, 2, 3], arr);
}

#[test]
fn shell_test_empty() {
    let mut arr: [i32; 0] = [];
    Shell::sort(&mut arr);
    assert_eq!(0, arr.len());
}

fn run_all(input: &[i32]) {
    let mut expected = input.to_vec();
    expected.sort();
    let sorts: Vec<fn(&mut [i32])> = vec![
        Bubble::sort,
        Select::sort,
        Insert::sort,
        TdMerge::sort,
        BuMerge::sort,
        Quick::sort,
        Shell::sort,
    ];
    for sort in sorts {
        let mut arr = input.to_vec();
        sort(&mut arr);
        assert_eq!(arr, expected);
    }
}

#[test]
fn algorithms_agree_on_long_input() {
    let mut input = Vec::new();
    let mut x: i64 = 99;
    for _ in 0..150 {
        x = (x * 6364136223846793005 + 1442695040888963407) % 1000003;
        input.push((x % 200) as i32 - 100);
    }
    run_all(&input);
}

#[test]
fn algorithms_on_runs_of_equal_values() {
    run_all(&[5, 5, 5, 5, 5, 5, 5, 5, 5, 5, 5]);
    run_all(&[3, 1, 3, 1, 3, 1, 3, 1, 3, 1, 3, 1, 2]);
    run_all(&[3, 1, 2]);
    run_all(&[i32::MAX, i32::MIN, 0, -1, 1, i32::MIN, i32::MAX, 7, 8, 9]);
}
