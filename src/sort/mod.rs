pub use self::bubble_sort::bubble_sort;
pub use self::heap_sort::heap_sort;
pub use self::insertion_sort::insertion_sort;
pub use self::merge_sort::{bu_merge_sort, td_merge_sort};
pub use self::quick_sort::quick_sort;
pub use self::selection_sort::selection_sort;
pub use self::shell_sort::shell_sort;

mod bubble_sort;
mod heap_sort;
pub(crate) mod insertion_sort;
pub(crate) mod merge_sort;
pub(crate) mod quick_sort;
mod selection_sort;
mod shell_sort;

use vstd::prelude::*;
use vstd::std_specs::cmp::PartialOrdSpec;

verus! {

broadcast use vstd::seq_lib::group_to_multiset_ensures;

/// The elements of `s` between positions `lo` (included) and `hi` (excluded) are in
/// ascending order.
pub open spec fn sorted_range(s: Seq<i32>, lo: int, hi: int) -> bool {
    forall|i: int, j: int| lo <= i < j < hi ==> s[i] <= s[j]
}

/// `s` is in ascending order.
pub open spec fn sorted(s: Seq<i32>) -> bool {
    sorted_range(s, 0, s.len() as int)
}

/// No element before position `k` is greater than an element from position `k` on
/// (both taken below `hi`).
pub open spec fn split_at_ordered(s: Seq<i32>, k: int, hi: int) -> bool {
    forall|i: int, j: int| 0 <= i < k <= j < hi ==> s[i] <= s[j]
}

/// `t` holds the same elements as `s`, each as many times.
pub open spec fn permutes(t: Seq<i32>, s: Seq<i32>) -> bool {
    t.to_multiset() == s.to_multiset()
}

/// No element of `s` is followed by one that compares greater than it.
pub open spec fn no_descent<T: PartialOrd>(s: Seq<T>) -> bool {
    forall|i: int| 0 <= i < s.len() - 1 ==> #[trigger] s[i].partial_cmp_spec(&s[i + 1]) != Some(
        core::cmp::Ordering::Greater,
    )
}

/// Exchanges the elements at positions `i` and `j`.
pub(crate) fn swap(arr: &mut [i32], i: usize, j: usize)
    requires
        i < old(arr)@.len(),
        j < old(arr)@.len(),
    ensures
        final(arr)@ == old(arr)@.update(i as int, old(arr)@[j as int]).update(
            j as int,
            old(arr)@[i as int],
        ),
        permutes(final(arr)@, old(arr)@),
{
    let a = arr[i];
    let b = arr[j];
    arr[i] = b;
    arr[j] = a;
    proof {
        let s = old(arr)@;
        let s1 = s.update(i as int, b);
        assert(s1.to_multiset() == s.to_multiset().remove(a).insert(b));
        assert(arr@.to_multiset() == s1.to_multiset().remove(s1[j as int]).insert(a));
        if i == j {
            assert(arr@ =~= s);
        } else {
            assert(s1[j as int] == b);
        }
        assert(arr@.to_multiset() =~= s.to_multiset());
    }
}

/// Tells whether no element of `arr` is greater than the one after it.
pub fn is_sort<T: PartialOrd>(arr: &[T]) -> (r: bool)
    ensures
        T::obeys_partial_cmp_spec() ==> (r == no_descent(arr@)),
{
    if arr.len() == 0 {
        return true;
    }
    let mut i: usize = 1;
    while i < arr.len()
        invariant
            1 <= i <= arr@.len(),
            T::obeys_partial_cmp_spec() ==> forall|k: int|
                0 <= k < i - 1 ==> #[trigger] arr@[k].partial_cmp_spec(&arr@[k + 1]) != Some(
                    core::cmp::Ordering::Greater,
                ),
        decreases arr@.len() - i,
    {
        if arr[i - 1] > arr[i] {
            assert(T::obeys_partial_cmp_spec() ==> !no_descent(arr@)) by {
                let k = i - 1;
                assert(arr@[k + 1] == arr@[i as int]);
            }
            return false;
        }
        i = i + 1;
    }
    true
}


/// A slice whose elements outside `lo..hi` are unchanged, and whose elements inside
/// are rearranged, holds the same elements as before.
pub(crate) proof fn lemma_permute_range(s: Seq<i32>, t: Seq<i32>, lo: int, hi: int)
    requires
        0 <= lo <= hi <= s.len(),
        t.len() == s.len(),
        forall|j: int| 0 <= j < lo || hi <= j < s.len() ==> #[trigger] t[j] == s[j],
        t.subrange(lo, hi).to_multiset() == s.subrange(lo, hi).to_multiset(),
    ensures
        permutes(t, s),
{
    let n = s.len() as int;
    assert(s =~= s.subrange(0, lo) + s.subrange(lo, hi) + s.subrange(hi, n));
    assert(t =~= t.subrange(0, lo) + t.subrange(lo, hi) + t.subrange(hi, n));
    assert(t.subrange(0, lo) =~= s.subrange(0, lo));
    assert(t.subrange(hi, n) =~= s.subrange(hi, n));
    vstd::seq_lib::lemma_multiset_commutative(s.subrange(0, lo) + s.subrange(lo, hi), s.subrange(hi, n));
    vstd::seq_lib::lemma_multiset_commutative(s.subrange(0, lo), s.subrange(lo, hi));
    vstd::seq_lib::lemma_multiset_commutative(t.subrange(0, lo) + t.subrange(lo, hi), t.subrange(hi, n));
    vstd::seq_lib::lemma_multiset_commutative(t.subrange(0, lo), t.subrange(lo, hi));
}

/// Copies the elements from position `lo` up to `hi` into a new vector.
pub(crate) fn copy_range(arr: &[i32], lo: usize, hi: usize) -> (r: Vec<i32>)
    requires
        lo <= hi <= arr@.len(),
    ensures
        r@ == arr@.subrange(lo as int, hi as int),
{
    let mut r: Vec<i32> = Vec::new();
    let mut i = lo;
    while i < hi
        invariant
            lo <= i <= hi <= arr@.len(),
            r@ == arr@.subrange(lo as int, i as int),
        decreases hi - i,
    {
        r.push(arr[i]);
        proof {
            assert(r@ =~= arr@.subrange(lo as int, i as int + 1));
        }
        i = i + 1;
    }
    r
}

} // verus!
