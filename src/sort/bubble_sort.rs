use vstd::prelude::*;
use super::{permutes, sorted, sorted_range, split_at_ordered, swap};

verus! {

/// Bubble sort: sweeps the unsorted prefix, carrying its largest element to the
/// end, until a sweep makes no exchange.
pub fn bubble_sort(arr: &mut [i32])
    ensures
        sorted(final(arr)@),
        permutes(final(arr)@, old(arr)@),
{
    if arr.len() == 0 {
        return;
    }
    let mut done = false;
    let mut end = arr.len();
    while !done
        invariant
            end <= arr@.len(),
            !done ==> end >= 1,
            sorted_range(arr@, end as int, arr@.len() as int),
            split_at_ordered(arr@, end as int, arr@.len() as int),
            done ==> sorted(arr@),
            permutes(arr@, old(arr)@),
        decreases end,
    {
        done = true;
        let mut i: usize = 0;
        while i < end - 1
            invariant
                1 <= end <= arr@.len(),
                i <= end - 1,
                forall|j: int| 0 <= j <= i ==> arr@[j] <= arr@[i as int],
                sorted_range(arr@, end as int, arr@.len() as int),
                split_at_ordered(arr@, end as int, arr@.len() as int),
                done ==> sorted_range(arr@, 0, i + 1),
                !done ==> end >= 2,
                permutes(arr@, old(arr)@),
            decreases end - i,
        {
            if arr[i] > arr[i + 1] {
                swap(arr, i, i + 1);
                done = false;
            }
            i = i + 1;
        }
        end = end - 1;
    }
}

} // verus!
