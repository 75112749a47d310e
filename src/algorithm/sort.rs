use vstd::prelude::*;
use vstd::std_specs::cmp::PartialOrdSpec;
use crate::sort::insertion_sort::insertion_sort_range;
use crate::sort::merge_sort::td_merge;
use crate::sort::quick_sort::{lemma_bounded_after_permute, partition};
use crate::sort::{
    bu_merge_sort, insertion_sort, permutes, shell_sort, sorted, sorted_range, split_at_ordered,
    swap,
};

verus! {

/// No element of `s` compares greater than an element after it.
pub open spec fn in_order<T: PartialOrd>(s: Seq<T>) -> bool {
    forall|i: int, j: int| 0 <= i < j < s.len() ==> #[trigger] s[i].partial_cmp_spec(&s[j]) != Some(
        core::cmp::Ordering::Greater,
    )
}

/// A sorting algorithm.
pub trait Sort<T: PartialOrd> {
    /// Puts the elements of `arr` in ascending order.
    fn sort(arr: &mut [T])
        ensures
            in_order(final(arr)@),
            final(arr)@.to_multiset() == old(arr)@.to_multiset(),
    ;
}

proof fn lemma_sorted_in_order(s: Seq<i32>)
    requires
        sorted(s),
    ensures
        in_order(s),
{
    assert forall|i: int, j: int| 0 <= i < j < s.len() implies #[trigger] s[i].partial_cmp_spec(&s[j])
        != Some(core::cmp::Ordering::Greater) by {
        assert(s[i] <= s[j]);
    }
}

/// Bubble sort that stops after a sweep without exchanges.
pub struct Bubble;

impl Sort<i32> for Bubble {
    fn sort(arr: &mut [i32]) {
        let len = arr.len();
        let mut x: usize = 1;
        let mut done = false;
        while x < len && !done
            invariant
                len == arr@.len(),
                1 <= x,
                len > 0 ==> x <= len,
                sorted_range(arr@, len + 1 - x, len as int),
                split_at_ordered(arr@, len + 1 - x, len as int),
                done ==> sorted(arr@),
                permutes(arr@, old(arr)@),
            decreases len - x, if done { 0int } else { 1int },
        {
            let mut sweep = false;
            let mut y: usize = 0;
            while y < len - x
                invariant
                    len == arr@.len(),
                    1 <= x < len,
                    y <= len - x,
                    forall|j: int| 0 <= j <= y ==> arr@[j] <= arr@[y as int],
                    sorted_range(arr@, len + 1 - x, len as int),
                    split_at_ordered(arr@, len + 1 - x, len as int),
                    !sweep ==> sorted_range(arr@, 0, y + 1),
                    permutes(arr@, old(arr)@),
                decreases len - x - y,
            {
                if arr[y] > arr[y + 1] {
                    swap(arr, y, y + 1);
                    sweep = true;
                }
                y = y + 1;
            }
            if !sweep {
                done = true;
            } else {
                x = x + 1;
            }
        }
        proof {
            lemma_sorted_in_order(arr@);
        }
    }
}

/// Selection sort.
pub struct Select;

impl Sort<i32> for Select {
    fn sort(arr: &mut [i32]) {
        let len = arr.len();
        let mut x: usize = 1;
        while x < len
            invariant
                len == arr@.len(),
                1 <= x,
                len > 0 ==> x <= len,
                sorted_range(arr@, 0, x - 1),
                split_at_ordered(arr@, x - 1, len as int),
                permutes(arr@, old(arr)@),
            decreases len - x,
        {
            let mut min_idx = x - 1;
            let mut y = x;
            while y < len
                invariant
                    len == arr@.len(),
                    1 <= x <= y <= len,
                    x - 1 <= min_idx < y,
                    forall|j: int| x - 1 <= j < y ==> arr@[min_idx as int] <= arr@[j],
                decreases len - y,
            {
                if arr[min_idx] > arr[y] {
                    min_idx = y;
                }
                y = y + 1;
            }
            if min_idx != (x - 1) {
                swap(arr, min_idx, x - 1);
            }
            x = x + 1;
        }
        proof {
            if len > 0 {
                assert(sorted_range(arr@, 0, len as int)) by {
                    assert forall|i: int, j: int| 0 <= i < j < len implies arr@[i] <= arr@[j] by {
                        if j == len - 1 && i < len - 1 {
                        }
                    }
                }
            }
            lemma_sorted_in_order(arr@);
        }
    }
}

/// Insertion sort.
pub struct Insert;

impl Sort<i32> for Insert {
    fn sort(arr: &mut [i32]) {
        insertion_sort(arr);
        proof {
            lemma_sorted_in_order(arr@);
        }
    }
}

/// Top-down merge sort that sorts short runs by insertion and skips the merge of
/// runs already in order.
pub struct TdMerge;

impl TdMerge {
    fn sort_range(arr: &mut [i32], lo: usize, hi: usize)
        requires
            lo <= hi <= old(arr)@.len(),
        ensures
            final(arr)@.len() == old(arr)@.len(),
            sorted_range(final(arr)@, lo as int, hi as int),
            permutes(final(arr)@, old(arr)@),
            forall|j: int| 0 <= j < lo || hi <= j < old(arr)@.len() ==> #[trigger] final(arr)@[j] == old(arr)@[j],
        decreases hi - lo,
    {
        if hi - lo < 7 {
            insertion_sort_range(arr, lo, hi);
            return;
        }
        let mid = lo + (hi - lo) / 2;
        TdMerge::sort_range(arr, lo, mid);
        let ghost a1 = arr@;
        TdMerge::sort_range(arr, mid, hi);
        assert(sorted_range(arr@, lo as int, mid as int)) by {
            assert forall|i: int, j: int| lo <= i < j < mid implies arr@[i] <= arr@[j] by {
                assert(arr@[i] == a1[i]);
                assert(arr@[j] == a1[j]);
            }
        }
        if arr[mid - 1] <= arr[mid] {
            return;
        }
        td_merge(arr, lo, mid, hi);
    }
}

impl Sort<i32> for TdMerge {
    fn sort(arr: &mut [i32]) {
        let len = arr.len();
        TdMerge::sort_range(arr, 0, len);
        proof {
            lemma_sorted_in_order(arr@);
        }
    }
}

/// Bottom-up merge sort.
pub struct BuMerge;

impl Sort<i32> for BuMerge {
    fn sort(arr: &mut [i32]) {
        bu_merge_sort(arr);
        proof {
            lemma_sorted_in_order(arr@);
        }
    }
}

/// Quick sort that sorts short ranges by insertion.
pub struct Quick;

impl Quick {
    fn do_quick_sort(arr: &mut [i32], start: usize, end: usize)
        requires
            end < old(arr)@.len(),
            start <= end + 1,
        ensures
            final(arr)@.len() == old(arr)@.len(),
            sorted_range(final(arr)@, start as int, end + 1),
            permutes(final(arr)@, old(arr)@),
            forall|j: int| 0 <= j < start || end < j < old(arr)@.len() ==> #[trigger] final(arr)@[j] == old(arr)@[j],
        decreases end + 1 - start,
    {
        let _n = arr.len();
        if start >= end {
            return;
        }
        if end - start + 1 <= 8 {
            insertion_sort_range(arr, start, end + 1);
            return;
        }
        let pivot = partition(arr, start, end);
        let ghost a1 = arr@;
        if pivot > start {
            Quick::do_quick_sort(arr, start, pivot - 1);
        }
        let ghost a2 = arr@;
        if pivot < end {
            Quick::do_quick_sort(arr, pivot + 1, end);
        }
        proof {
            let p = pivot as int;
            assert forall|i: int, j: int| start <= i < j <= end implies arr@[i] <= arr@[j] by {
                if i < p && j > p {
                    assert(a2[i] <= a1[p]) by {
                        lemma_bounded_after_permute(a1, a2, start as int, p, a1[p], true);
                    }
                    assert(arr@[j] >= a1[p]) by {
                        lemma_bounded_after_permute(a2, arr@, p + 1, end + 1, a1[p], false);
                    }
                    assert(arr@[i] == a2[i]);
                } else if i < p && j == p {
                    lemma_bounded_after_permute(a1, a2, start as int, p, a1[p], true);
                    assert(arr@[i] == a2[i]);
                    assert(arr@[j] == a1[p]);
                } else if i == p && j > p {
                    lemma_bounded_after_permute(a2, arr@, p + 1, end + 1, a1[p], false);
                    assert(arr@[i] == a1[p]);
                } else if j < p {
                    assert(arr@[i] == a2[i]);
                    assert(arr@[j] == a2[j]);
                }
            }
        }
    }
}

impl Sort<i32> for Quick {
    fn sort(arr: &mut [i32]) {
        if arr.len() <= 1 {
            proof {
                lemma_sorted_in_order(arr@);
            }
            return;
        }
        let end = arr.len() - 1;
        Quick::do_quick_sort(arr, 0, end);
        proof {
            lemma_sorted_in_order(arr@);
        }
    }
}

/// Shell sort.
pub struct Shell;

impl Sort<i32> for Shell {
    fn sort(arr: &mut [i32]) {
        shell_sort(arr);
        proof {
            lemma_sorted_in_order(arr@);
        }
    }
}

} // verus!
