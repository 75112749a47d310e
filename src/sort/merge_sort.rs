use vstd::prelude::*;
use super::{copy_range, lemma_permute_range, permutes, sorted, sorted_range};

verus! {

broadcast use vstd::seq_lib::group_to_multiset_ensures;

/// Top-down merge sort.
pub fn td_merge_sort(arr: &mut [i32])
    ensures
        sorted(final(arr)@),
        permutes(final(arr)@, old(arr)@),
{
    let len = arr.len();
    td_sort_range(arr, 0, len);
}

/// Sorts the elements from position `lo` up to `hi` by sorting each half and
/// merging the two.
fn td_sort_range(arr: &mut [i32], lo: usize, hi: usize)
    requires
        lo <= hi <= old(arr)@.len(),
    ensures
        final(arr)@.len() == old(arr)@.len(),
        sorted_range(final(arr)@, lo as int, hi as int),
        permutes(final(arr)@, old(arr)@),
        forall|j: int| 0 <= j < lo || hi <= j < old(arr)@.len() ==> #[trigger] final(arr)@[j] == old(arr)@[j],
    decreases hi - lo,
{
    if hi - lo <= 1 {
        return;
    }
    let mid = lo + (hi - lo) / 2;
    td_sort_range(arr, lo, mid);
    let ghost a1 = arr@;
    td_sort_range(arr, mid, hi);
    assert(sorted_range(arr@, lo as int, mid as int)) by {
        assert forall|i: int, j: int| lo <= i < j < mid implies arr@[i] <= arr@[j] by {
            assert(arr@[i] == a1[i]);
            assert(arr@[j] == a1[j]);
        }
    }
    td_merge(arr, lo, mid, hi);
}

/// Merges the sorted runs `lo..mid` and `mid..hi` into one sorted run.
pub(crate) fn td_merge(arr: &mut [i32], lo: usize, mid: usize, hi: usize)
    requires
        lo <= mid <= hi <= old(arr)@.len(),
        sorted_range(old(arr)@, lo as int, mid as int),
        sorted_range(old(arr)@, mid as int, hi as int),
    ensures
        final(arr)@.len() == old(arr)@.len(),
        sorted_range(final(arr)@, lo as int, hi as int),
        permutes(final(arr)@, old(arr)@),
        forall|j: int| 0 <= j < lo || hi <= j < old(arr)@.len() ==> #[trigger] final(arr)@[j] == old(arr)@[j],
{
    let left_half = copy_range(arr, lo, mid);
    let right_half = copy_range(arr, mid, hi);
    let mut left_idx: usize = 0;
    let mut right_idx: usize = 0;
    let mut x = lo;
    while x < hi
        invariant
            lo <= x <= hi <= arr@.len(),
            lo <= mid <= hi,
            arr@.len() == old(arr)@.len(),
            sorted_range(old(arr)@, lo as int, mid as int),
            sorted_range(old(arr)@, mid as int, hi as int),
            left_half@ == old(arr)@.subrange(lo as int, mid as int),
            right_half@ == old(arr)@.subrange(mid as int, hi as int),
            left_idx <= left_half@.len(),
            right_idx <= right_half@.len(),
            x == lo + left_idx + right_idx,
            sorted_range(arr@, lo as int, x as int),
            x > lo && left_idx < left_half@.len() ==> arr@[x - 1] <= left_half@[left_idx as int],
            x > lo && right_idx < right_half@.len() ==> arr@[x - 1] <= right_half@[right_idx as int],
            arr@.subrange(lo as int, x as int).to_multiset() == left_half@.subrange(0, left_idx as int).to_multiset().add(
                right_half@.subrange(0, right_idx as int).to_multiset(),
            ),
            forall|j: int| 0 <= j < lo || hi <= j < old(arr)@.len() ==> #[trigger] arr@[j] == old(arr)@[j],
        decreases hi - x,
    {
        let ghost before = arr@;
        if right_idx >= right_half.len() || (left_idx < left_half.len() && left_half[left_idx]
            < right_half[right_idx]) {
            assert(left_idx < left_half@.len());
            let v = left_half[left_idx];
            arr[x] = v;
            proof {
                assert(arr@.subrange(lo as int, x as int + 1) =~= before.subrange(lo as int, x as int).push(v));
                assert(left_half@.subrange(0, left_idx as int + 1) =~= left_half@.subrange(0, left_idx as int).push(v));
            }
            left_idx = left_idx + 1;
        } else {
            let v = right_half[right_idx];
            arr[x] = v;
            proof {
                assert(arr@.subrange(lo as int, x as int + 1) =~= before.subrange(lo as int, x as int).push(v));
                assert(right_half@.subrange(0, right_idx as int + 1) =~= right_half@.subrange(0, right_idx as int).push(v));
            }
            right_idx = right_idx + 1;
        }
        x = x + 1;
    }
    proof {
        assert(left_half@.subrange(0, left_idx as int) =~= left_half@);
        assert(right_half@.subrange(0, right_idx as int) =~= right_half@);
        assert(old(arr)@.subrange(lo as int, hi as int) =~= left_half@ + right_half@);
        vstd::seq_lib::lemma_multiset_commutative(left_half@, right_half@);
        lemma_permute_range(old(arr)@, arr@, lo as int, hi as int);
    }
}

/// The run of width `w` from position `lo` of `s` (cut off at `n`) is sorted.
pub open spec fn run_sorted(s: Seq<i32>, lo: int, w: int, n: int) -> bool {
    sorted_range(s, lo, if lo + w < n { lo + w } else { n })
}

/// Each run `k * w .. (k + 1) * w` of `s` (cut off at `n`) is sorted.
pub open spec fn runs_sorted(s: Seq<i32>, w: int, n: int) -> bool {
    forall|k: int| 0 <= k ==> #[trigger] run_sorted(s, k * w, w, n)
}

/// Bottom-up merge sort: merges runs of width 1, 2, 4, ... until one run covers
/// the slice.
pub fn bu_merge_sort(arr: &mut [i32])
    ensures
        sorted(final(arr)@),
        permutes(final(arr)@, old(arr)@),
{
    let n = arr.len();
    let mut len: usize = 1;
    while len < n
        invariant
            n == arr@.len(),
            1 <= len,
            runs_sorted(arr@, len as int, n as int),
            permutes(arr@, old(arr)@),
        decreases n - len,
    {
        let mut start: usize = 0;
        let ghost mut c: int = 0;
        while start < n - len
            invariant
                n == arr@.len(),
                1 <= len < n,
                start <= n,
                start == n || (start == c * (2 * len) && 0 <= c),
                start < n ==> forall|k: int| 0 <= k < c ==> #[trigger] run_sorted(arr@, k * (2 * len), 2 * len, n as int),
                start < n ==> forall|k: int| 2 * c <= k ==> #[trigger] run_sorted(arr@, k * len, len as int, n as int),
                start == n ==> runs_sorted(arr@, 2 * len as int, n as int),
                permutes(arr@, old(arr)@),
            decreases n - start,
        {
            let mid = start + len - 1;
            let rem = n - start - len;
            let end = if rem > len { start + 2 * len } else { n };
            let ghost before = arr@;
            proof {
                assert(2 * c * len == c * (2 * len)) by (nonlinear_arith);
                assert((2 * c + 1) * len == c * (2 * len) + len) by (nonlinear_arith);
                assert(run_sorted(before, (2 * c) * len, len as int, n as int));
                assert(run_sorted(before, (2 * c + 1) * len, len as int, n as int));
            }
            bu_merge(arr, start, mid, end);
            proof {
                assert forall|k: int| 0 <= k <= c implies #[trigger] run_sorted(arr@, k * (2 * len), 2 * len, n as int) by {
                    if k < c {
                        assert((k + 1) * (2 * len) <= c * (2 * len)) by (nonlinear_arith) requires k + 1 <= c, len >= 1;
                        assert(k * (2 * len) + 2 * len == (k + 1) * (2 * len)) by (nonlinear_arith);
                        assert(run_sorted(before, k * (2 * len), 2 * len, n as int));
                    }
                }
                assert forall|k: int| 2 * (c + 1) <= k implies #[trigger] run_sorted(arr@, k * len, len as int, n as int) by {
                    assert(k * len >= (2 * c + 2) * len) by (nonlinear_arith) requires k >= 2 * c + 2, len >= 1;
                    assert((2 * c + 2) * len == c * (2 * len) + 2 * len) by (nonlinear_arith);
                    assert(run_sorted(before, k * len, len as int, n as int));
                }
                if rem <= len {
                    assert forall|k: int| 0 <= k implies #[trigger] run_sorted(arr@, k * (2 * len), 2 * len, n as int) by {
                        if k > c {
                            assert(k * (2 * len) >= (c + 1) * (2 * len)) by (nonlinear_arith) requires k >= c + 1, len >= 1;
                            assert((c + 1) * (2 * len) == c * (2 * len) + 2 * len) by (nonlinear_arith);
                        }
                    }
                }
            }
            if rem > len {
                start = start + 2 * len;
                proof {
                    c = c + 1;
                    assert(start == c * (2 * len)) by (nonlinear_arith) requires start == (c - 1) * (2 * len) + 2 * len;
                }
            } else {
                start = n;
            }
        }
        proof {
            if start < n {
                assert(start + len >= n);
                assert(start == c * (2 * len));
                assert forall|k: int| 0 <= k implies #[trigger] run_sorted(arr@, k * (2 * len), 2 * len, n as int) by {
                    if k == c {
                        assert(2 * c <= 2 * c);
                        assert(run_sorted(arr@, (2 * c) * len, len as int, n as int));
                        assert(2 * c * len == c * (2 * len)) by (nonlinear_arith);
                        assert(sorted_range(arr@, start as int, n as int));
                    } else if k > c {
                        assert(k * (2 * len) >= (c + 1) * (2 * len)) by (nonlinear_arith) requires k >= c + 1, len >= 1;
                        assert((c + 1) * (2 * len) == c * (2 * len) + 2 * len) by (nonlinear_arith);
                    }
                }
            }
        }
        assert(runs_sorted(arr@, 2 * len as int, n as int));
        let ghost w = len as int;
        if len >= n - len {
            len = n;
        } else {
            len = 2 * len;
        }
        proof {
            if len == n {
                assert forall|k: int| 0 <= k implies #[trigger] run_sorted(arr@, k * len, len as int, n as int) by {
                    if k == 0 {
                        assert(run_sorted(arr@, 0 * (2 * w), 2 * w, n as int));
                    } else {
                        assert(k * len >= len) by (nonlinear_arith) requires k >= 1, len >= 0;
                    }
                }
            }
        }
    }
    proof {
        assert(run_sorted(arr@, 0 * len, len as int, n as int));
    }
}

/// Merges the sorted runs `start..=mid` and `mid + 1..end` into one sorted run.
fn bu_merge(arr: &mut [i32], start: usize, mid: usize, end: usize)
    requires
        start <= mid < end <= old(arr)@.len(),
        sorted_range(old(arr)@, start as int, mid + 1),
        sorted_range(old(arr)@, mid + 1, end as int),
    ensures
        final(arr)@.len() == old(arr)@.len(),
        sorted_range(final(arr)@, start as int, end as int),
        permutes(final(arr)@, old(arr)@),
        forall|j: int| 0 <= j < start || end <= j < old(arr)@.len() ==> #[trigger] final(arr)@[j] == old(arr)@[j],
{
    let temp_copy = copy_range(arr, 0, arr.len());
    let ghost t = temp_copy@;
    assert(t =~= old(arr)@);
    let mut left_idx = start;
    let mut right_idx = mid + 1;
    let mut x = start;
    while x < end
        invariant
            start <= x <= end <= arr@.len(),
            start <= mid < end,
            arr@.len() == old(arr)@.len(),
            sorted_range(t, start as int, mid + 1),
            sorted_range(t, mid + 1, end as int),
            temp_copy@ == old(arr)@,
            t == old(arr)@,
            start <= left_idx <= mid + 1,
            mid + 1 <= right_idx <= end,
            x == left_idx + right_idx - (mid + 1),
            sorted_range(arr@, start as int, x as int),
            x > start && left_idx <= mid ==> arr@[x - 1] <= t[left_idx as int],
            x > start && right_idx < end ==> arr@[x - 1] <= t[right_idx as int],
            arr@.subrange(start as int, x as int).to_multiset() == t.subrange(start as int, left_idx as int).to_multiset().add(
                t.subrange(mid + 1, right_idx as int).to_multiset(),
            ),
            forall|j: int| 0 <= j < start || end <= j < old(arr)@.len() ==> #[trigger] arr@[j] == old(arr)@[j],
        decreases end - x,
    {
        let ghost before = arr@;
        if right_idx >= end || (left_idx <= mid && temp_copy[left_idx] < temp_copy[right_idx]) {
            assert(left_idx <= mid);
            let v = temp_copy[left_idx];
            arr[x] = v;
            proof {
                assert(arr@.subrange(start as int, x as int + 1) =~= before.subrange(start as int, x as int).push(v));
                assert(t.subrange(start as int, left_idx as int + 1) =~= t.subrange(start as int, left_idx as int).push(v));
            }
            left_idx = left_idx + 1;
        } else {
            let v = temp_copy[right_idx];
            arr[x] = v;
            proof {
                assert(arr@.subrange(start as int, x as int + 1) =~= before.subrange(start as int, x as int).push(v));
                assert(t.subrange(mid + 1, right_idx as int + 1) =~= t.subrange(mid + 1, right_idx as int).push(v));
            }
            right_idx = right_idx + 1;
        }
        x = x + 1;
    }
    proof {
        assert(t.subrange(start as int, end as int) =~= t.subrange(start as int, mid + 1) + t.subrange(mid + 1, end as int));
        vstd::seq_lib::lemma_multiset_commutative(t.subrange(start as int, mid + 1), t.subrange(mid + 1, end as int));
        lemma_permute_range(old(arr)@, arr@, start as int, end as int);
    }
}

} // verus!
