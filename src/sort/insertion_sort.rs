use vstd::prelude::*;
use super::{permutes, sorted, sorted_range, swap};

verus! {

/// Insertion sort.
///
/// A first sweep from the right carries the smallest element to the front, where it
/// stops every later shift; a sweep that exchanges nothing shows the slice sorted.
pub fn insertion_sort(arr: &mut [i32])
    ensures
        sorted(final(arr)@),
        permutes(final(arr)@, old(arr)@),
{
    let len = arr.len();
    if len == 0 {
        return;
    }
    let mut change = false;
    let mut x: usize = len - 1;
    while x > 0
        invariant
            len == arr@.len(),
            x < len,
            forall|j: int| x <= j < len ==> arr@[x as int] <= arr@[j],
            !change ==> sorted_range(arr@, x as int, len as int),
            permutes(arr@, old(arr)@),
        decreases x,
    {
        if arr[x] < arr[x - 1] {
            swap(arr, x, x - 1);
            change = true;
        }
        x = x - 1;
    }
    if !change {
        return;
    }
    insert_each(arr, 2);
}

/// Shifts each element from position `from` on leftwards into the sorted prefix
/// before it; the smallest element stands at the front.
pub(crate) fn insert_each(arr: &mut [i32], from: usize)
    requires
        from >= 1,
        old(arr)@.len() > 0,
        sorted_range(old(arr)@, 0, if from < old(arr)@.len() { from as int } else { old(arr)@.len() as int }),
        forall|j: int| 0 <= j < old(arr)@.len() ==> old(arr)@[0] <= #[trigger] old(arr)@[j],
    ensures
        sorted(final(arr)@),
        permutes(final(arr)@, old(arr)@),
{
    let len = arr.len();
    let mut x = from;
    if x > len {
        x = len;
    }
    while x < len
        invariant
            len == arr@.len(),
            1 <= x <= len,
            sorted_range(arr@, 0, x as int),
            forall|j: int| 0 <= j < len ==> arr@[0] <= #[trigger] arr@[j],
            permutes(arr@, old(arr)@),
        decreases len - x,
    {
        let mut y = x;
        while arr[y] < arr[y - 1]
            invariant
                len == arr@.len(),
                1 <= x < len,
                1 <= y <= x,
                sorted_range(arr@, 0, y as int),
                sorted_range(arr@, y as int + 1, x as int + 1),
                forall|a: int, b: int| 0 <= a < y < b <= x ==> arr@[a] <= arr@[b],
                forall|b: int| y < b <= x ==> arr@[y as int] <= arr@[b],
                forall|j: int| 0 <= j < len ==> arr@[0] <= #[trigger] arr@[j],
                permutes(arr@, old(arr)@),
            decreases y,
        {
            assert(y > 1);
            swap(arr, y, y - 1);
            y = y - 1;
        }
        x = x + 1;
    }
}


/// Insertion sort of the elements from position `lo` up to `hi`.
pub(crate) fn insertion_sort_range(arr: &mut [i32], lo: usize, hi: usize)
    requires
        lo <= hi <= old(arr)@.len(),
    ensures
        final(arr)@.len() == old(arr)@.len(),
        sorted_range(final(arr)@, lo as int, hi as int),
        permutes(final(arr)@, old(arr)@),
        forall|j: int| 0 <= j < lo || hi <= j < old(arr)@.len() ==> #[trigger] final(arr)@[j] == old(arr)@[j],
{
    let mut x = lo;
    while x < hi
        invariant
            lo <= x <= hi <= arr@.len(),
            arr@.len() == old(arr)@.len(),
            sorted_range(arr@, lo as int, x as int),
            permutes(arr@, old(arr)@),
            forall|j: int| 0 <= j < lo || hi <= j < old(arr)@.len() ==> #[trigger] arr@[j] == old(arr)@[j],
        decreases hi - x,
    {
        let mut y = x;
        while y > lo && arr[y] < arr[y - 1]
            invariant
                lo <= y <= x < hi <= arr@.len(),
                arr@.len() == old(arr)@.len(),
                sorted_range(arr@, lo as int, y as int),
                sorted_range(arr@, y as int + 1, x as int + 1),
                forall|a: int, b: int| lo <= a < y < b <= x ==> arr@[a] <= arr@[b],
                forall|b: int| y < b <= x ==> arr@[y as int] <= arr@[b],
                permutes(arr@, old(arr)@),
                forall|j: int| 0 <= j < lo || hi <= j < old(arr)@.len() ==> #[trigger] arr@[j] == old(arr)@[j],
            decreases y,
        {
            swap(arr, y, y - 1);
            y = y - 1;
        }
        x = x + 1;
    }
}

} // verus!
