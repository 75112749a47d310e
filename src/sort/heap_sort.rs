use vstd::prelude::*;
use super::{permutes, sorted, sorted_range, split_at_ordered, swap};

verus! {

/// Node `i` is no smaller than its children below `n`.
pub open spec fn heap_at(s: Seq<i32>, i: int, n: int) -> bool {
    &&& 2 * i + 1 < n ==> s[2 * i + 1] <= s[i]
    &&& 2 * i + 2 < n ==> s[2 * i + 2] <= s[i]
}

/// Every node from `lo` up to `n` is no smaller than its children below `n`.
pub open spec fn heap_from(s: Seq<i32>, lo: int, n: int) -> bool {
    forall|i: int| lo <= i < n ==> #[trigger] heap_at(s, i, n)
}

/// `v` occurs among the first `n` elements of `s`.
pub open spec fn in_prefix(s: Seq<i32>, v: i32, n: int) -> bool {
    exists|m: int| 0 <= m < n && #[trigger] s[m] == v
}

/// Heap sort: builds a max-heap, then moves its top behind the shrinking heap.
pub fn heap_sort(arr: &mut [i32])
    ensures
        sorted(final(arr)@),
        permutes(final(arr)@, old(arr)@),
{
    let len = arr.len();
    if len <= 1 {
        return;
    }
    let mut k: usize = (len - 2) / 2 + 1;
    while k > 0
        invariant
            len == arr@.len(),
            len >= 2,
            k <= (len - 2) / 2 + 1,
            heap_from(arr@, k as int, len as int),
            permutes(arr@, old(arr)@),
        decreases k,
    {
        k = k - 1;
        sink(arr, k, len);
    }
    let mut k: usize = len - 1;
    while k > 0
        invariant
            len == arr@.len(),
            k < len,
            heap_from(arr@, 0, k as int + 1),
            sorted_range(arr@, k as int + 1, len as int),
            split_at_ordered(arr@, k as int + 1, len as int),
            permutes(arr@, old(arr)@),
        decreases k,
    {
        proof {
            lemma_heap_top(arr@, k as int + 1);
        }
        let ghost pre = arr@;
        swap(arr, 0, k);
        assert(heap_from(arr@, 1, k as int)) by {
            assert forall|i: int| 1 <= i < k implies #[trigger] heap_at(arr@, i, k as int) by {
                assert(heap_at(pre, i, k as int + 1));
            }
        }
        let ghost mid = arr@;
        sink(arr, 0, k);
        proof {
            assert forall|a: int, b: int| 0 <= a < k <= b < len implies arr@[a] <= arr@[b] by {
                assert(in_prefix(mid, arr@[a], k as int));
                let m = choose|m: int| 0 <= m < k && #[trigger] mid[m] == arr@[a];
                assert(mid[k as int] == pre[0]);
                if m == 0 {
                    assert(mid[m] == pre[k as int]);
                    assert(pre[0] >= pre[k as int]);
                } else {
                    assert(mid[m] == pre[m]);
                    assert(pre[0] >= pre[m]);
                }
                if b > k {
                    assert(pre[0] <= pre[b]);
                }
            }
            assert forall|a: int, b: int| k <= a < b < len implies arr@[a] <= arr@[b] by {
                if a == k {
                    assert(pre[0] <= pre[b]);
                }
            }
        }
        k = k - 1;
    }
}

/// The top of a heap is no smaller than any of its nodes.
proof fn lemma_heap_top(s: Seq<i32>, n: int)
    requires
        heap_from(s, 0, n),
        n <= s.len(),
    ensures
        forall|j: int| 0 <= j < n ==> s[0] >= #[trigger] s[j],
{
    assert forall|j: int| 0 <= j < n implies s[0] >= #[trigger] s[j] by {
        lemma_heap_top_at(s, n, j);
    }
}

proof fn lemma_heap_top_at(s: Seq<i32>, n: int, j: int)
    requires
        heap_from(s, 0, n),
        0 <= j < n,
        n <= s.len(),
    ensures
        s[0] >= s[j],
    decreases j,
{
    if j > 0 {
        let p = (j - 1) / 2;
        lemma_heap_top_at(s, n, p);
        assert(heap_at(s, p, n));
    }
}

/// Moves the element at `root` down the heap of the first `n` elements until no
/// child below it is greater.
fn sink(arr: &mut [i32], root: usize, n: usize)
    requires
        n <= old(arr)@.len(),
        root < n,
        heap_from(old(arr)@, root as int + 1, n as int),
    ensures
        final(arr)@.len() == old(arr)@.len(),
        heap_from(final(arr)@, root as int, n as int),
        permutes(final(arr)@, old(arr)@),
        forall|j: int| 0 <= j < root || n <= j < old(arr)@.len() ==> #[trigger] final(arr)@[j] == old(arr)@[j],
        forall|j: int| 0 <= j < n ==> #[trigger] in_prefix(old(arr)@, final(arr)@[j], n as int),
{
    let mut r = root;
    assert forall|j: int| 0 <= j < n implies #[trigger] in_prefix(old(arr)@, arr@[j], n as int) by {
        assert(arr@[j] == old(arr)@[j]);
    }
    while r < n / 2
        invariant
            n <= arr@.len(),
            arr@.len() == old(arr)@.len(),
            root <= r < n,
            forall|i: int| root <= i < n && i != r ==> #[trigger] heap_at(arr@, i, n as int),
            r > root ==> {
                let p = (r - 1) / 2;
                &&& p >= root
                &&& (2 * r + 1 < n ==> arr@[2 * r + 1] <= arr@[p])
                &&& (2 * r + 2 < n ==> arr@[2 * r + 2] <= arr@[p])
            },
            permutes(arr@, old(arr)@),
            forall|j: int| 0 <= j < root || n <= j < old(arr)@.len() ==> #[trigger] arr@[j] == old(arr)@[j],
            forall|j: int| 0 <= j < n ==> #[trigger] in_prefix(old(arr)@, arr@[j], n as int),
        decreases n - r,
    {
        let mut idx = 2 * r + 1;
        if idx + 1 < n && arr[idx] < arr[idx + 1] {
            idx = idx + 1;
        }
        let ghost before = arr@;
        if arr[idx] > arr[r] {
            swap(arr, idx, r);
            proof {
                assert forall|j: int| 0 <= j < n implies #[trigger] in_prefix(old(arr)@, arr@[j], n as int) by {
                    if j == idx {
                        assert(arr@[j] == before[r as int]);
                        assert(in_prefix(old(arr)@, before[r as int], n as int));
                    } else if j == r {
                        assert(arr@[j] == before[idx as int]);
                        assert(in_prefix(old(arr)@, before[idx as int], n as int));
                    } else {
                        assert(arr@[j] == before[j]);
                        assert(in_prefix(old(arr)@, before[j], n as int));
                    }
                }
            }
        }
        proof {
            assert((idx - 1) / 2 == r);
            assert(heap_at(before, idx as int, n as int));
            assert forall|i: int| root <= i < n && i != idx implies #[trigger] heap_at(arr@, i, n as int) by {
                if i != r {
                    assert(heap_at(before, i, n as int));
                    if i == (r - 1) / 2 && r > root {
                    }
                }
            }
        }
        r = idx;
    }
}

} // verus!
