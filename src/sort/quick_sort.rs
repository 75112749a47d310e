use vstd::prelude::*;
use super::{permutes, sorted, sorted_range, swap};

verus! {

/// `v` lies between `a` and `b`, whichever way round they are.
pub open spec fn between(a: i32, v: i32, b: i32) -> bool {
    (a <= v && v <= b) || (b <= v && v <= a)
}

/// Quick sort with a median-of-three pivot.
pub fn quick_sort(arr: &mut [i32])
    ensures
        sorted(final(arr)@),
        permutes(final(arr)@, old(arr)@),
{
    if arr.len() <= 1 {
        return;
    }
    let end = arr.len() - 1;
    quick(arr, 0, end);
}

/// Sorts the elements from position `start` to position `end`, both included.
fn quick(arr: &mut [i32], start: usize, end: usize)
    requires
        end < old(arr)@.len(),
        start <= end + 1,
    ensures
        final(arr)@.len() == old(arr)@.len(),
        sorted_range(final(arr)@, start as int, end + 1),
        permutes(final(arr)@, old(arr)@),
        forall|j: int| 0 <= j < start || end < j < old(arr)@.len() ==> #[trigger] final(arr)@[j] == old(arr)@[j],
    decreases end + 1 - start,
{
    if start < end {
        let pivot = partition(arr, start, end);
        let ghost a1 = arr@;
        if pivot > start {
            quick(arr, start, pivot - 1);
        }
        let ghost a2 = arr@;
        if pivot < end {
            quick(arr, pivot + 1, end);
        }
        proof {
            let p = pivot as int;
            assert forall|i: int, j: int| start <= i < j <= end implies arr@[i] <= arr@[j] by {
                if i < p && j > p {
                    assert(a2[i] <= a1[p]) by {
                        lemma_bounded_after_permute(a1, a2, start as int, p, a1[p], true);
                    }
                    assert(arr@[j] >= a1[p]) by {
                        lemma_bounded_after_permute(a2, arr@, p + 1, end + 1, a1[p], false);
                    }
                    assert(arr@[i] == a2[i]);
                } else if i < p && j == p {
                    lemma_bounded_after_permute(a1, a2, start as int, p, a1[p], true);
                    assert(arr@[i] == a2[i]);
                    assert(arr@[j] == a1[p]);
                } else if i == p && j > p {
                    lemma_bounded_after_permute(a2, arr@, p + 1, end + 1, a1[p], false);
                    assert(arr@[i] == a1[p]);
                } else if j < p {
                    assert(arr@[i] == a2[i]);
                    assert(arr@[j] == a2[j]);
                }
            }
        }
    }
}

/// Elements of a range that all lie on one side of `bound` still do after the range
/// has been rearranged.
pub(crate) proof fn lemma_bounded_after_permute(s: Seq<i32>, t: Seq<i32>, lo: int, hi: int, bound: i32, below: bool)
    requires
        0 <= lo <= hi <= s.len(),
        t.len() == s.len(),
        permutes(t, s),
        forall|j: int| 0 <= j < lo || hi <= j < s.len() ==> #[trigger] t[j] == s[j],
        below ==> forall|j: int| lo <= j < hi ==> #[trigger] s[j] <= bound,
        !below ==> forall|j: int| lo <= j < hi ==> #[trigger] s[j] >= bound,
    ensures
        below ==> forall|j: int| lo <= j < hi ==> #[trigger] t[j] <= bound,
        !below ==> forall|j: int| lo <= j < hi ==> #[trigger] t[j] >= bound,
{
    broadcast use vstd::seq_lib::group_to_multiset_ensures;
    let n = s.len() as int;
    assert(s =~= s.subrange(0, lo) + s.subrange(lo, hi) + s.subrange(hi, n));
    assert(t =~= t.subrange(0, lo) + t.subrange(lo, hi) + t.subrange(hi, n));
    assert(t.subrange(0, lo) =~= s.subrange(0, lo));
    assert(t.subrange(hi, n) =~= s.subrange(hi, n));
    vstd::seq_lib::lemma_multiset_commutative(s.subrange(0, lo) + s.subrange(lo, hi), s.subrange(hi, n));
    vstd::seq_lib::lemma_multiset_commutative(s.subrange(0, lo), s.subrange(lo, hi));
    vstd::seq_lib::lemma_multiset_commutative(t.subrange(0, lo) + t.subrange(lo, hi), t.subrange(hi, n));
    vstd::seq_lib::lemma_multiset_commutative(t.subrange(0, lo), t.subrange(lo, hi));
    let ms = s.subrange(lo, hi).to_multiset();
    let mt = t.subrange(lo, hi).to_multiset();
    let a = s.subrange(0, lo).to_multiset();
    let c = s.subrange(hi, n).to_multiset();
    assert(t.to_multiset() == a.add(mt).add(c));
    assert(s.to_multiset() == a.add(ms).add(c));
    assert forall|v: i32| mt.count(v) == ms.count(v) by {
        assert(t.to_multiset().count(v) == s.to_multiset().count(v));
    }
    assert(mt =~= ms);
    assert forall|j: int| lo <= j < hi implies (below ==> #[trigger] t[j] <= bound) && (!below ==> t[j] >= bound) by {
        let v = t[j];
        assert(t.subrange(lo, hi)[j - lo] == v);
        assert(mt.contains(v));
        assert(ms.contains(v));
        assert(s.subrange(lo, hi).contains(v));
        let k = choose|k: int| 0 <= k < hi - lo && s.subrange(lo, hi)[k] == v;
        assert(s[lo + k] == v);
    }
}

/// Rearranges the elements from `start` to `end` around a pivot and returns its
/// final position: no element before it is greater, none after it is smaller.
pub(crate) fn partition(arr: &mut [i32], start: usize, end: usize) -> (r: usize)
    requires
        start < end < old(arr)@.len(),
    ensures
        start <= r <= end,
        final(arr)@.len() == old(arr)@.len(),
        permutes(final(arr)@, old(arr)@),
        forall|j: int| 0 <= j < start || end < j < old(arr)@.len() ==> #[trigger] final(arr)@[j] == old(arr)@[j],
        forall|i: int| start <= i < r ==> #[trigger] final(arr)@[i] <= final(arr)@[r as int],
        forall|j: int| r < j <= end ==> #[trigger] final(arr)@[j] >= final(arr)@[r as int],
{
    let _n = arr.len();
    let mid = median(arr, start, start + (end - start + 1) / 2, end);
    swap(arr, start, mid);
    let p = arr[start];
    let mut l_idx = start + 1;
    let mut r_idx = end;

    while arr[l_idx] < arr[start]
        invariant
            start < l_idx <= end < arr@.len(),
            arr@.len() == old(arr)@.len(),
            arr@[start as int] == p,
            forall|i: int| start < i < l_idx ==> #[trigger] arr@[i] < p,
            permutes(arr@, old(arr)@),
            forall|j: int| 0 <= j < start || end < j < old(arr)@.len() ==> #[trigger] arr@[j] == old(arr)@[j],
        decreases end - l_idx,
    {
        if l_idx == end {
            swap(arr, l_idx, start);
            return end;
        }
        l_idx = l_idx + 1;
    }

    while arr[r_idx] > arr[start]
        invariant
            start < l_idx <= end < arr@.len(),
            start < r_idx <= end,
            arr@.len() == old(arr)@.len(),
            arr@[start as int] == p,
            forall|i: int| start < i < l_idx ==> #[trigger] arr@[i] < p,
            forall|j: int| r_idx < j <= end ==> #[trigger] arr@[j] > p,
            permutes(arr@, old(arr)@),
            forall|j: int| 0 <= j < start || end < j < old(arr)@.len() ==> #[trigger] arr@[j] == old(arr)@[j],
        decreases r_idx,
    {
        if r_idx == start + 1 {
            return start;
        }
        r_idx = r_idx - 1;
    }

    assert(l_idx <= r_idx + 1) by {
        if l_idx > r_idx + 1 {
            assert(arr@[r_idx + 1] < p);
            assert(arr@[r_idx + 1] > p);
        }
    }
    while l_idx < r_idx
        invariant
            start < l_idx <= end < arr@.len(),
            start < r_idx <= end,
            arr@.len() == old(arr)@.len(),
            arr@[start as int] == p,
            arr@[r_idx as int] <= p,
            l_idx < r_idx ==> arr@[l_idx as int] >= p,
            l_idx <= r_idx + 1,
            forall|i: int| start < i < l_idx ==> #[trigger] arr@[i] <= p,
            forall|j: int| r_idx < j <= end ==> #[trigger] arr@[j] >= p,
            permutes(arr@, old(arr)@),
            forall|j: int| 0 <= j < start || end < j < old(arr)@.len() ==> #[trigger] arr@[j] == old(arr)@[j],
        decreases r_idx + 1 - l_idx,
    {
        swap(arr, l_idx, r_idx);
        let ghost lim = r_idx;
        l_idx = l_idx + 1;
        r_idx = r_idx - 1;
        let ghost cur = arr@;
        let ghost l0 = l_idx;
        while arr[l_idx] < arr[start]
            invariant
                l0 <= l_idx,
                start + 2 <= l_idx <= lim <= end < arr@.len(),
                r_idx + 1 == lim,
                arr@ == cur,
                arr@[lim as int] >= p,
                arr@[start as int] == p,
                forall|i: int| start < i < l_idx ==> #[trigger] arr@[i] <= p,
            decreases lim - l_idx,
        {
            l_idx = l_idx + 1;
        }
        while arr[r_idx] > arr[start]
            invariant
                start <= r_idx < end < arr@.len(),
                r_idx < lim,
                l0 <= l_idx,
                start + 2 <= l_idx,
                arr@ == cur,
                arr@[start as int] == p,
                l_idx <= r_idx + 1,
                forall|i: int| start < i < l_idx ==> #[trigger] arr@[i] <= p,
                forall|j: int| r_idx < j <= end ==> #[trigger] arr@[j] >= p,
            decreases r_idx,
        {
            assert(r_idx + 1 != l_idx) by {
                if r_idx + 1 == l_idx && r_idx > start {
                    assert(arr@[r_idx as int] <= p);
                }
            }
            r_idx = r_idx - 1;
        }
    }

    swap(arr, start, r_idx);
    r_idx
}

/// Returns whichever of the three positions holds the middle one of their values.
fn median(arr: &[i32], idx1: usize, idx2: usize, idx3: usize) -> (r: usize)
    requires
        idx1 < arr@.len(),
        idx2 < arr@.len(),
        idx3 < arr@.len(),
    ensures
        r == idx1 && between(arr@[idx2 as int], arr@[idx1 as int], arr@[idx3 as int])
            || r == idx2 && between(arr@[idx1 as int], arr@[idx2 as int], arr@[idx3 as int])
            || r == idx3 && between(arr@[idx1 as int], arr@[idx3 as int], arr@[idx2 as int]),
{
    if arr[idx1] < arr[idx2] {
        if arr[idx2] < arr[idx3] {
            return idx2;
        }
        if arr[idx1] < arr[idx3] {
            return idx3;
        }
        return idx1;
    }
    if arr[idx1] < arr[idx3] {
        return idx1;
    }
    if arr[idx2] < arr[idx3] {
        return idx3;
    }
    idx2
}

} // verus!
