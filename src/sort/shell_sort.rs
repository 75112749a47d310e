use vstd::prelude::*;
use super::{permutes, sorted, sorted_range, swap};

verus! {

/// `h` belongs to the gap sequence 1, 4, 13, 40, ... (each term three times the one
/// before, plus one).
pub open spec fn is_gap(h: int) -> bool
    decreases h,
{
    if h <= 1 {
        h == 1
    } else {
        h % 3 == 1 && is_gap((h - 1) / 3)
    }
}

/// Shell sort with the gap sequence 1, 4, 13, 40, ...
pub fn shell_sort(arr: &mut [i32])
    ensures
        sorted(final(arr)@),
        permutes(final(arr)@, old(arr)@),
{
    let len = arr.len();
    let mut h: usize = 1;
    while h < len / 3
        invariant
            1 <= h <= len + 1,
            is_gap(h as int),
        decreases len + 1 - h,
    {
        proof {
            assert((3 * h + 1 - 1) / 3 == h as int);
        }
        h = 3 * h + 1;
    }
    while h >= 1
        invariant
            len == arr@.len(),
            h == 0 ==> sorted(arr@),
            h > 0 ==> is_gap(h as int),
            permutes(arr@, old(arr)@),
        decreases h,
    {
        gap_pass(arr, h);
        proof {
            if h > 1 {
                assert(h / 3 == (h - 1) / 3);
            }
        }
        h = h / 3;
    }
}

/// Insertion sort over the elements `h` apart; with `h == 1` it sorts the slice.
pub(crate) fn gap_pass(arr: &mut [i32], h: usize)
    requires
        h >= 1,
    ensures
        final(arr)@.len() == old(arr)@.len(),
        permutes(final(arr)@, old(arr)@),
        h == 1 ==> sorted(final(arr)@),
{
    let len = arr.len();
    let mut x = h;
    while x < len
        invariant
            len == arr@.len(),
            h >= 1,
            h == 1 ==> sorted_range(arr@, 0, if x < len { x as int } else { len as int }),
            permutes(arr@, old(arr)@),
        decreases len - x,
    {
        let mut y = x;
        while y >= h && arr[y] < arr[y - h]
            invariant
                len == arr@.len(),
                h >= 1,
                x < len,
                y <= x,
                h == 1 ==> {
                    &&& sorted_range(arr@, 0, y as int)
                    &&& sorted_range(arr@, y as int + 1, x as int + 1)
                    &&& forall|a: int, b: int| 0 <= a < y < b <= x ==> arr@[a] <= arr@[b]
                    &&& forall|b: int| y < b <= x ==> arr@[y as int] <= arr@[b]
                },
                permutes(arr@, old(arr)@),
            decreases y,
        {
            swap(arr, y, y - h);
            y = y - h;
        }
        x = x + 1;
    }
}

} // verus!
