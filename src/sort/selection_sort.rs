use vstd::prelude::*;
use super::{permutes, sorted, sorted_range, split_at_ordered, swap};

verus! {

/// Selection sort: for each position from the left, exchanges it with the
/// smallest element that follows it.
pub fn selection_sort(arr: &mut [i32])
    ensures
        sorted(final(arr)@),
        permutes(final(arr)@, old(arr)@),
{
    let len = arr.len();
    let mut left_idx: usize = 0;
    while left_idx < len
        invariant
            len == arr@.len(),
            left_idx <= len,
            sorted_range(arr@, 0, left_idx as int),
            split_at_ordered(arr@, left_idx as int, len as int),
            permutes(arr@, old(arr)@),
        decreases len - left_idx,
    {
        let mut smallest_idx = left_idx;
        let mut right_idx = left_idx + 1;
        while right_idx < len
            invariant
                len == arr@.len(),
                left_idx < right_idx <= len,
                left_idx <= smallest_idx < right_idx,
                forall|j: int| left_idx <= j < right_idx ==> arr@[smallest_idx as int] <= arr@[j],
            decreases len - right_idx,
        {
            if arr[smallest_idx] > arr[right_idx] {
                smallest_idx = right_idx;
            }
            right_idx = right_idx + 1;
        }
        swap(arr, smallest_idx, left_idx);
        left_idx = left_idx + 1;
    }
}

} // verus!
