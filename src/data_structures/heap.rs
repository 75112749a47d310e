use vstd::prelude::*;
use vstd::multiset::Multiset;
use core::cmp::Ordering;
use crate::heap::{
    lemma_swap_multiset, lemma_swap_remove_multiset, swap_elements, Compare, CompareFn,
    NaturalOrder, ReverseOrder,
};

verus! {

broadcast use vstd::seq_lib::group_to_multiset_ensures;

/// In an ordered heap nothing comes before the element in the first slot.
proof fn lemma_first_is_least<T, C: Compare<T>>(cmp: C, s: Seq<T>, n: int, i: int)
    requires
        cmp.lawful(),
        1 <= i <= n < s.len(),
        forall|j: int| 2 <= j <= n ==> !cmp.before(#[trigger] s[j], s[j / 2]),
    ensures
        !cmp.before(s[i], s[1]),
    decreases i,
{
    if i == 1 {
        cmp.lemma_order(s[1], s[1], s[1]);
    } else {
        lemma_first_is_least(cmp, s, n, i / 2);
        cmp.lemma_order(s[i], s[i / 2], s[1]);
    }
}

/// Binary heap on a vector whose first slot is unused, so that the children of
/// position `i` sit at `2 * i` and `2 * i + 1`. The element that the order puts
/// first comes out first.
pub struct Heap<T, C = NaturalOrder> {
    count: usize,
    items: Vec<T>,
    comparator: C,
}

impl<T: Default, F: Fn(&T, &T) -> Option<Ordering>> Heap<T, CompareFn<F>> {
    /// Creates an empty heap ordered by `comparator`.
    pub fn new(comparator: F) -> (r: Self)
        requires
            forall|a: &T, b: &T| call_requires(comparator, (a, b)),
        ensures
            r.wf(),
            r@ == Multiset::<T>::empty(),
            r.order().func() == comparator,
    {
        Self::with_order(CompareFn::new(comparator))
    }
}

impl<T: Default + Ord> Heap<T, NaturalOrder> {
    /// Creates an empty heap whose smallest element comes out first.
    pub fn new_min() -> (r: Self)
        ensures
            r.wf(),
            r@ == Multiset::<T>::empty(),
            r.order() == NaturalOrder,
    {
        Self::with_order(NaturalOrder)
    }
}

impl<T: Default + Ord> Heap<T, ReverseOrder> {
    /// Creates an empty heap whose greatest element comes out first.
    pub fn new_max() -> (r: Self)
        ensures
            r.wf(),
            r@ == Multiset::<T>::empty(),
            r.order() == ReverseOrder,
    {
        Self::with_order(ReverseOrder)
    }
}

impl<T: Default, C: Compare<T>> Heap<T, C> {
    /// The elements in the heap.
    pub closed spec fn view(&self) -> Multiset<T> {
        self.items@.drop_first().to_multiset()
    }

    /// The order of the heap.
    pub closed spec fn order(&self) -> C {
        self.comparator
    }

    /// The element at position `i` does not come before its parent's.
    closed spec fn fits(&self, i: int) -> bool {
        !self.comparator.before(self.items@[i], self.items@[i / 2])
    }

    /// No element comes before its parent's.
    closed spec fn ordered(&self) -> bool {
        forall|i: int| 2 <= i <= self.count ==> #[trigger] self.fits(i)
    }

    /// The slots after the unused first one hold the `count` elements, and the
    /// order accepts every pair of them.
    closed spec fn base(&self) -> bool {
        &&& self.items@.len() == self.count + 1
        &&& forall|a: T, b: T| #[trigger] self.comparator.accepts(a, b)
    }

    /// The heap is well formed; under a lawful order no element comes before its
    /// parent's.
    pub closed spec fn wf(&self) -> bool {
        &&& self.base()
        &&& self.comparator.lawful() ==> self.ordered()
    }

    fn with_order(comparator: C) -> (r: Self)
        requires
            forall|a: T, b: T| #[trigger] comparator.accepts(a, b),
        ensures
            r.wf(),
            r@ == Multiset::<T>::empty(),
            r.order() == comparator,
    {
        let r = Self { count: 0, items: vec![T::default()], comparator };
        proof {
            assert(r.items@.drop_first() =~= Seq::<T>::empty());
        }
        r
    }

    /// Returns the number of elements.
    pub fn len(&self) -> (r: usize)
        requires
            self.wf(),
        ensures
            r == self@.len(),
    {
        self.count
    }

    /// Tells whether the heap holds no element.
    pub fn is_empty(&self) -> (r: bool)
        requires
            self.wf(),
        ensures
            r == (self@.len() == 0),
    {
        self.len() == 0
    }

    /// Adds an element.
    pub fn push(&mut self, item: T)
        requires
            old(self).wf(),
            old(self)@.len() < usize::MAX - 1,
        ensures
            final(self).wf(),
            final(self)@ == old(self)@.insert(item),
            final(self).order() == old(self).order(),
    {
        let ghost s0 = self.items@;
        self.count = self.count + 1;
        self.items.push(item);
        proof {
            assert(self.items@.drop_first() =~= s0.drop_first().push(item));
            if self.comparator.lawful() {
                assert forall|i: int| 2 <= i <= self.count && i != self.count implies #[trigger] self.fits(i) by {
                    assert(old(self).fits(i));
                }
            }
        }
        let mut idx = self.count;
        while self.parent_idx(idx) > 0
            invariant
                self.base(),
                1 <= idx <= self.count,
                self.count == old(self).count + 1,
                self.comparator == old(self).comparator,
                self@ == old(self)@.insert(item),
                self.comparator.lawful() ==> self.rising(idx as int),
            decreases idx,
        {
            let parent_idx = self.parent_idx(idx);
            let ghost pre = *self;
            if matches!(self.comparator.compare(&self.items[idx], &self.items[parent_idx]), Some(Ordering::Less)) {
                self.swap_slots(idx, parent_idx);
                proof {
                    if self.comparator.lawful() {
                        self.lemma_rise_swapped(pre, idx as int);
                    }
                }
            } else {
                proof {
                    if self.comparator.lawful() {
                        self.lemma_rise_kept(idx as int);
                    }
                }
            }
            idx = parent_idx;
        }
        proof {
            if self.comparator.lawful() {
                assert forall|i: int| 2 <= i <= self.count implies #[trigger] self.fits(i) by {}
            }
        }
    }

    /// Ordered but for the link from `idx` to its parent, whose parent in turn
    /// does not come after the children of `idx`.
    closed spec fn rising(&self, idx: int) -> bool {
        &&& forall|i: int| 2 <= i <= self.count && i != idx ==> #[trigger] self.fits(i)
        &&& idx >= 2 ==> forall|c: int|
            (c == 2 * idx || c == 2 * idx + 1) && c <= self.count ==> !self.comparator.before(
                #[trigger] self.items@[c],
                self.items@[idx / 2],
            )
    }

    proof fn lemma_rise_swapped(&self, pre: Self, idx: int)
        requires
            pre.base(),
            pre.comparator.lawful(),
            2 <= idx <= pre.count,
            pre.rising(idx),
            pre.comparator.before(pre.items@[idx], pre.items@[idx / 2]),
            self.comparator == pre.comparator,
            self.count == pre.count,
            self.items@ == pre.items@.update(idx, pre.items@[idx / 2]).update(idx / 2, pre.items@[idx]),
        ensures
            self.rising(idx / 2),
    {
        let p = idx / 2;
        let x = pre.items@[idx];
        let y = pre.items@[p];
        let cmp = self.comparator;
        cmp.lemma_order(x, y, x);
        assert forall|i: int| 2 <= i <= self.count && i != p implies #[trigger] self.fits(i) by {
            if i == idx {
            } else if i / 2 == idx {
                assert(self.items@[i] == pre.items@[i]);
            } else if i / 2 == p {
                let z = pre.items@[i];
                assert(pre.fits(i));
                cmp.lemma_order(z, x, y);
            } else {
                assert(pre.fits(i));
            }
        }
        if p >= 2 {
            let g = pre.items@[p / 2];
            assert(pre.fits(p));
            assert forall|c: int| (c == 2 * p || c == 2 * p + 1) && c <= self.count implies !cmp.before(
                #[trigger] self.items@[c],
                self.items@[p / 2],
            ) by {
                if c != idx {
                    let z = pre.items@[c];
                    assert(pre.fits(c));
                    cmp.lemma_order(z, y, g);
                }
            }
        }
    }

    proof fn lemma_rise_kept(&self, idx: int)
        requires
            self.base(),
            self.comparator.lawful(),
            2 <= idx <= self.count,
            self.rising(idx),
            !self.comparator.before(self.items@[idx], self.items@[idx / 2]),
        ensures
            self.rising(idx / 2),
    {
        let p = idx / 2;
        let cmp = self.comparator;
        assert(self.fits(idx));
        if p >= 2 {
            let g = self.items@[p / 2];
            assert(self.fits(p));
            assert forall|c: int| (c == 2 * p || c == 2 * p + 1) && c <= self.count implies !cmp.before(
                #[trigger] self.items@[c],
                self.items@[p / 2],
            ) by {
                assert(self.fits(c));
                cmp.lemma_order(self.items@[c], self.items@[p], g);
            }
        }
    }

    /// Removes the element that the order puts first and returns it, or returns
    /// `None` when the heap is empty. Under a lawful order, no element of the heap
    /// comes before the one returned.
    pub fn pop(&mut self) -> (r: Option<T>)
        requires
            old(self).wf(),
        ensures
            final(self).wf(),
            final(self).order() == old(self).order(),
            old(self)@.len() == 0 ==> r is None && final(self)@ == old(self)@,
            old(self)@.len() > 0 ==> r is Some && old(self)@.contains(r->0) && final(self)@ == old(
                self,
            )@.remove(r->0),
            old(self)@.len() > 0 && old(self).order().lawful() ==> forall|x: T|
                old(self)@.contains(x) ==> !old(self).order().before(x, r->0),
    {
        if self.count == 0 {
            return None;
        }
        let ghost s0 = self.items@;
        proof {
            if self.comparator.lawful() {
                assert forall|j: int| 2 <= j <= self.count implies !self.comparator.before(#[trigger] s0[j], s0[j / 2]) by {
                    assert(self.fits(j));
                }
                assert forall|x: T| old(self)@.contains(x) implies !self.comparator.before(x, s0[1]) by {
                    let d = s0.drop_first();
                    assert(d.contains(x));
                    let k = choose|k: int| 0 <= k < d.len() && d[k] == x;
                    lemma_first_is_least(self.comparator, s0, self.count as int, k + 1);
                }
            }
        }
        self.count = self.count - 1;
        let item = self.items.swap_remove(1);
        proof {
            let d = s0.drop_first();
            lemma_swap_remove_multiset(d, 0);
            assert(self.items@.drop_first() =~= d.update(0, d.last()).drop_last());
            assert(d.to_multiset().contains(d[0]));
            if self.comparator.lawful() {
                assert forall|i: int| 2 <= i <= self.count && i / 2 != 1 implies #[trigger] self.fits(i) by {
                    assert(old(self).fits(i));
                }
            }
        }
        if self.count > 0 {
            let mut idx: usize = 1;
            while self.children_present(idx)
                invariant
                    self.base(),
                    1 <= idx <= self.count,
                    self.comparator == old(self).comparator,
                    self@ == old(self)@.remove(item),
                    self.comparator.lawful() ==> self.sinking(idx as int),
                decreases self.count - idx,
            {
                let cdx = self.smallest_child_idx(idx);
                let ghost pre = *self;
                if !matches!(self.comparator.compare(&self.items[idx], &self.items[cdx]), Some(Ordering::Less)) {
                    self.swap_slots(idx, cdx);
                    proof {
                        if self.comparator.lawful() {
                            self.lemma_sink_swapped(pre, idx as int, cdx as int);
                        }
                    }
                } else {
                    proof {
                        if self.comparator.lawful() {
                            self.lemma_sink_kept(idx as int, cdx as int);
                        }
                    }
                }
                idx = cdx;
            }
            proof {
                if self.comparator.lawful() {
                    assert forall|i: int| 2 <= i <= self.count implies #[trigger] self.fits(i) by {}
                }
            }
        }
        Some(item)
    }

    /// Ordered but for the links from the children of `idx` to `idx`, whose parent
    /// does not come after those children.
    closed spec fn sinking(&self, idx: int) -> bool {
        &&& forall|i: int| 2 <= i <= self.count && i / 2 != idx ==> #[trigger] self.fits(i)
        &&& idx >= 2 ==> forall|c: int|
            (c == 2 * idx || c == 2 * idx + 1) && c <= self.count ==> !self.comparator.before(
                #[trigger] self.items@[c],
                self.items@[idx / 2],
            )
    }

    proof fn lemma_sink_swapped(&self, pre: Self, idx: int, cdx: int)
        requires
            pre.base(),
            pre.comparator.lawful(),
            1 <= idx,
            cdx == 2 * idx || cdx == 2 * idx + 1,
            cdx <= pre.count,
            pre.sinking(idx),
            forall|c: int|
                (c == 2 * idx || c == 2 * idx + 1) && c <= pre.count ==> !pre.comparator.before(
                    #[trigger] pre.items@[c],
                    pre.items@[cdx],
                ),
            !pre.comparator.before(pre.items@[idx], pre.items@[cdx]),
            self.comparator == pre.comparator,
            self.count == pre.count,
            self.items@ == pre.items@.update(idx, pre.items@[cdx]).update(cdx, pre.items@[idx]),
        ensures
            self.sinking(cdx),
    {
        let cmp = self.comparator;
        let m = pre.items@[cdx];
        assert(cdx / 2 == idx);
        assert forall|i: int| 2 <= i <= self.count && i / 2 != cdx implies #[trigger] self.fits(i) by {
            if i == cdx {
            } else if i / 2 == idx {
                assert(pre.items@[i] == self.items@[i]);
            } else if i == idx {
                assert(pre.items@[cdx] == m);
            } else {
                assert(pre.fits(i));
            }
        }
        assert forall|c: int| (c == 2 * cdx || c == 2 * cdx + 1) && c <= self.count implies !cmp.before(
            #[trigger] self.items@[c],
            self.items@[cdx / 2],
        ) by {
            assert(pre.fits(c));
        }
    }

    proof fn lemma_sink_kept(&self, idx: int, cdx: int)
        requires
            self.base(),
            self.comparator.lawful(),
            1 <= idx,
            cdx == 2 * idx || cdx == 2 * idx + 1,
            cdx <= self.count,
            self.sinking(idx),
            forall|c: int|
                (c == 2 * idx || c == 2 * idx + 1) && c <= self.count ==> !self.comparator.before(
                    #[trigger] self.items@[c],
                    self.items@[cdx],
                ),
            self.comparator.before(self.items@[idx], self.items@[cdx]),
        ensures
            self.sinking(cdx),
    {
        let cmp = self.comparator;
        let x = self.items@[idx];
        let m = self.items@[cdx];
        assert(cdx / 2 == idx);
        cmp.lemma_order(x, m, x);
        assert forall|i: int| 2 <= i <= self.count && i / 2 != cdx implies #[trigger] self.fits(i) by {
            if i / 2 == idx && i != cdx {
                let z = self.items@[i];
                assert(!cmp.before(z, m));
                cmp.lemma_order(z, x, m);
            }
        }
        assert forall|c: int| (c == 2 * cdx || c == 2 * cdx + 1) && c <= self.count implies !cmp.before(
            #[trigger] self.items@[c],
            self.items@[cdx / 2],
        ) by {
            assert(self.fits(c));
            cmp.lemma_order(self.items@[c], x, m);
        }
    }

    fn swap_slots(&mut self, a: usize, b: usize)
        requires
            old(self).base(),
            1 <= a <= old(self).count,
            1 <= b <= old(self).count,
        ensures
            final(self).base(),
            final(self)@ == old(self)@,
            final(self).count == old(self).count,
            final(self).comparator == old(self).comparator,
            final(self).items@ == old(self).items@.update(a as int, old(self).items@[b as int]).update(
                b as int,
                old(self).items@[a as int],
            ),
    {
        let ghost s = self.items@;
        swap_elements(&mut self.items, a, b);
        proof {
            let d = s.drop_first();
            lemma_swap_multiset(d, a - 1, b - 1);
            assert(self.items@.drop_first() =~= d.update(a - 1, d[b - 1]).update(b - 1, d[a - 1]));
        }
    }

    fn parent_idx(&self, idx: usize) -> (r: usize)
        ensures
            r == idx / 2,
    {
        idx / 2
    }

    fn children_present(&self, idx: usize) -> (r: bool)
        ensures
            r == (2 * idx <= self.count),
    {
        idx <= self.count / 2
    }

    fn left_child_idx(&self, idx: usize) -> (r: usize)
        requires
            2 * idx <= usize::MAX,
        ensures
            r == 2 * idx,
    {
        idx * 2
    }

    fn right_child_idx(&self, idx: usize) -> (r: usize)
        requires
            2 * idx + 1 <= usize::MAX,
        ensures
            r == 2 * idx + 1,
    {
        self.left_child_idx(idx) + 1
    }

    /// The child of `idx` that the order puts first (the left one on a tie).
    fn smallest_child_idx(&self, idx: usize) -> (r: usize)
        requires
            self.base(),
            1 <= idx,
            2 * idx <= self.count,
        ensures
            r == 2 * idx || r == 2 * idx + 1,
            idx < r <= self.count,
            self.comparator.lawful() ==> forall|c: int|
                (c == 2 * idx || c == 2 * idx + 1) && c <= self.count ==> !self.comparator.before(
                    #[trigger] self.items@[c],
                    self.items@[r as int],
                ),
    {
        proof {
            if self.comparator.lawful() {
                let l = self.items@[2 * idx];
                self.comparator.lemma_order(l, l, l);
                if 2 * idx + 1 <= self.count {
                    let rv = self.items@[2 * idx + 1];
                    self.comparator.lemma_order(rv, rv, rv);
                    self.comparator.lemma_order(l, rv, l);
                }
            }
        }
        if self.left_child_idx(idx) >= self.count {
            self.left_child_idx(idx)
        } else {
            let ldx = self.left_child_idx(idx);
            let rdx = self.right_child_idx(idx);
            if matches!(self.comparator.compare(&self.items[ldx], &self.items[rdx]), Some(Ordering::Less)) {
                ldx
            } else {
                rdx
            }
        }
    }
}

} // verus!
