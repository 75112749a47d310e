use vstd::prelude::*;
use vstd::multiset::Multiset;
use core::cmp::Ordering;
use vstd::laws_cmp::obeys_partial_cmp_spec_properties;
use vstd::laws_eq::obeys_eq_spec_properties;
use vstd::std_specs::cmp::{PartialEqSpec, PartialOrdSpec};

verus! {

broadcast use vstd::seq_lib::group_to_multiset_ensures;

/// `T`'s `PartialOrd` is a total order, reported faithfully by `partial_cmp`.
pub open spec fn total_partial_ord<T: PartialOrd>() -> bool {
    &&& T::obeys_partial_cmp_spec()
    &&& obeys_partial_cmp_spec_properties::<T>()
    &&& forall|a: T, b: T| (#[trigger] a.partial_cmp_spec(&b)) is Some
}

/// `a` is less than `b` by `partial_cmp`.
pub open spec fn less_than<T: PartialOrd>(a: T, b: T) -> bool {
    a.partial_cmp_spec(&b) == Some(Ordering::Less)
}

/// Under a total order, "less than" is asymmetric and transitive, and so is
/// "not less than".
pub proof fn lemma_less_than_order<T: PartialOrd>(a: T, b: T, c: T)
    requires
        total_partial_ord::<T>(),
    ensures
        less_than(a, b) ==> !less_than(b, a),
        less_than(a, b) && less_than(b, c) ==> less_than(a, c),
        !less_than(a, b) && !less_than(b, c) ==> !less_than(a, c),
{
    reveal(obeys_partial_cmp_spec_properties);
    reveal(obeys_eq_spec_properties);
    assert(a.partial_cmp_spec(&b) is Some);
    assert(b.partial_cmp_spec(&c) is Some);
    assert(a.partial_cmp_spec(&c) is Some);
    assert(b.partial_cmp_spec(&a) is Some);
    assert(c.partial_cmp_spec(&b) is Some);
    assert(c.partial_cmp_spec(&a) is Some);
    if !less_than(a, b) && !less_than(b, c) && less_than(a, c) {
        if a.partial_cmp_spec(&b) == Some(Ordering::Equal) {
            if b.partial_cmp_spec(&c) == Some(Ordering::Equal) {
                assert(a.eq_spec(&b));
                assert(b.eq_spec(&c));
                assert(a.eq_spec(&c));
            } else {
                assert(b.partial_cmp_spec(&c) == Some(Ordering::Greater));
                assert(c.partial_cmp_spec(&b) == Some(Ordering::Less));
                assert(less_than(a, b));
            }
        } else {
            assert(a.partial_cmp_spec(&b) == Some(Ordering::Greater));
            assert(b.partial_cmp_spec(&a) == Some(Ordering::Less));
            assert(less_than(b, c));
        }
    }
}

/// The order of `i32` is total, so the natural and reverse orders on `i32` are
/// lawful.
pub proof fn lemma_i32_total_order()
    ensures
        total_partial_ord::<i32>(),
{
    broadcast use vstd::laws_cmp::group_laws_cmp;

    assert(vstd::laws_cmp::obeys_cmp::<i32>());
}

/// An ordering of values of type `T`, consulted by the priority queues.
pub trait Compare<T> {
    /// The arguments on which `compare` may be called.
    spec fn accepts(&self, a: T, b: T) -> bool;

    /// `a` comes strictly before `b`.
    spec fn before(&self, a: T, b: T) -> bool;

    /// `before` is a strict weak order and `compare` reports it.
    spec fn lawful(&self) -> bool;

    /// The laws of a strict weak order.
    proof fn lemma_order(&self, a: T, b: T, c: T)
        requires
            self.lawful(),
        ensures
            self.before(a, b) ==> !self.before(b, a),
            self.before(a, b) && self.before(b, c) ==> self.before(a, c),
            !self.before(a, b) && !self.before(b, c) ==> !self.before(a, c),
    ;

    /// Compares `a` with `b`.
    fn compare(&self, a: &T, b: &T) -> (r: Option<Ordering>)
        requires
            self.accepts(*a, *b),
        ensures
            self.lawful() ==> (r == Some(Ordering::Less) <==> self.before(*a, *b)),
    ;
}

/// The order of `PartialOrd`.
pub struct NaturalOrder;

impl<T: PartialOrd> Compare<T> for NaturalOrder {
    open spec fn accepts(&self, a: T, b: T) -> bool {
        true
    }

    open spec fn before(&self, a: T, b: T) -> bool {
        less_than(a, b)
    }

    open spec fn lawful(&self) -> bool {
        total_partial_ord::<T>()
    }

    proof fn lemma_order(&self, a: T, b: T, c: T) {
        lemma_less_than_order(a, b, c);
    }

    fn compare(&self, a: &T, b: &T) -> (r: Option<Ordering>) {
        a.partial_cmp(b)
    }
}

/// The reverse of the order of `PartialOrd`.
pub struct ReverseOrder;

impl<T: PartialOrd> Compare<T> for ReverseOrder {
    open spec fn accepts(&self, a: T, b: T) -> bool {
        true
    }

    open spec fn before(&self, a: T, b: T) -> bool {
        less_than(b, a)
    }

    open spec fn lawful(&self) -> bool {
        total_partial_ord::<T>()
    }

    proof fn lemma_order(&self, a: T, b: T, c: T) {
        lemma_less_than_order(c, b, a);
        lemma_less_than_order(b, a, c);
    }

    fn compare(&self, a: &T, b: &T) -> (r: Option<Ordering>) {
        let r = match a.partial_cmp(b) {
            Some(Ordering::Less) => Some(Ordering::Greater),
            Some(Ordering::Greater) => Some(Ordering::Less),
            Some(Ordering::Equal) => Some(Ordering::Equal),
            None => None,
        };
        proof {
            if total_partial_ord::<T>() {
                reveal(obeys_partial_cmp_spec_properties);
                assert(less_than(*b, *a) <==> a.partial_cmp_spec(b) == Some(Ordering::Greater));
            }
        }
        r
    }
}

/// An order given by a comparison function. Nothing is known of the function, so
/// no law is claimed of it.
pub struct CompareFn<F>(F);

impl<T, F: Fn(&T, &T) -> Option<Ordering>> Compare<T> for CompareFn<F> {
    open spec fn accepts(&self, a: T, b: T) -> bool {
        call_requires(self.func(), (&a, &b))
    }

    open spec fn before(&self, a: T, b: T) -> bool {
        false
    }

    open spec fn lawful(&self) -> bool {
        false
    }

    proof fn lemma_order(&self, a: T, b: T, c: T) {
    }

    fn compare(&self, a: &T, b: &T) -> (r: Option<Ordering>) {
        (self.0)(a, b)
    }
}

impl<F> CompareFn<F> {
    /// The comparison function.
    pub closed spec fn func(&self) -> F {
        self.0
    }

    /// Wraps a comparison function.
    pub(crate) fn new(f: F) -> (r: Self)
        ensures
            r.func() == f,
    {
        CompareFn(f)
    }
}

/// Relies on `<[T]>::swap`: exchanges the elements at positions `a` and `b`, which
/// must both be in bounds.
#[verifier::external_body]
pub(crate) fn swap_elements<T>(v: &mut Vec<T>, a: usize, b: usize)
    requires
        a < old(v)@.len(),
        b < old(v)@.len(),
    ensures
        final(v)@ == old(v)@.update(a as int, old(v)@[b as int]).update(b as int, old(v)@[a as int]),
{
    v.swap(a, b)
}

/// Exchanging two elements keeps the multiset of elements.
pub(crate) proof fn lemma_swap_multiset<T>(s: Seq<T>, a: int, b: int)
    requires
        0 <= a < s.len(),
        0 <= b < s.len(),
    ensures
        s.update(a, s[b]).update(b, s[a]).to_multiset() == s.to_multiset(),
{
    let s1 = s.update(a, s[b]);
    assert(s1.to_multiset() == s.to_multiset().remove(s[a]).insert(s[b]));
    let s2 = s1.update(b, s[a]);
    assert(s2.to_multiset() == s1.to_multiset().remove(s1[b]).insert(s[a]));
    if a == b {
        assert(s2 =~= s);
    } else {
        assert(s1[b] == s[b]);
    }
    assert(s2.to_multiset() =~= s.to_multiset());
}

/// Taking element `i` out by moving the last element into its place leaves the
/// other elements.
pub(crate) proof fn lemma_swap_remove_multiset<T>(s: Seq<T>, i: int)
    requires
        0 <= i < s.len(),
    ensures
        s.update(i, s.last()).drop_last().to_multiset() == s.to_multiset().remove(s[i]),
{
    let u = s.update(i, s.last());
    assert(u.to_multiset() == s.to_multiset().remove(s[i]).insert(s.last()));
    assert(u =~= u.drop_last().push(s.last()));
    assert(u.drop_last().push(s.last()).to_multiset() == u.drop_last().to_multiset().insert(s.last()));
    let x = u.drop_last().to_multiset();
    let y = s.to_multiset().remove(s[i]);
    assert forall|v: T| x.count(v) == y.count(v) by {
        assert(x.insert(s.last()).count(v) == y.insert(s.last()).count(v));
    }
    assert(x =~= y);
}

/// Priority queue of fixed capacity on a binary heap: the element that the order
/// puts last comes out first (the greatest, under `PartialOrd`).
pub struct PriorityQueue<T, C = NaturalOrder> {
    data: Vec<T>,
    size: usize,
    capacity: usize,
    compartor: C,
}

/// In an ordered heap the element in the first slot comes before no element.
proof fn lemma_top_is_last<T, C: Compare<T>>(cmp: C, s: Seq<T>, n: int, i: int)
    requires
        cmp.lawful(),
        0 <= i < n <= s.len(),
        forall|j: int| 1 <= j < n ==> !cmp.before(s[(j - 1) / 2], #[trigger] s[j]),
    ensures
        !cmp.before(s[0], s[i]),
    decreases i,
{
    if i == 0 {
        cmp.lemma_order(s[0], s[0], s[0]);
    } else {
        lemma_top_is_last(cmp, s, n, (i - 1) / 2);
        cmp.lemma_order(s[0], s[(i - 1) / 2], s[i]);
    }
}

impl<T: PartialOrd> PriorityQueue<T, NaturalOrder> {
    /// Creates a queue of the given capacity, ordered by `PartialOrd`.
    pub fn new(capacity: usize) -> (r: Self)
        ensures
            r.wf(),
            r@ == Multiset::<T>::empty(),
            r.capacity() == capacity,
            r.order() == NaturalOrder,
    {
        let r = PriorityQueue { data: Vec::new(), size: 0, capacity, compartor: NaturalOrder };
        proof {
            assert(r.data@ =~= Seq::<T>::empty());
        }
        r
    }
}

impl<T, F: Fn(&T, &T) -> Option<Ordering>> PriorityQueue<T, CompareFn<F>> {
    /// Creates a queue of the given capacity, ordered by `compartor`.
    pub fn with_compare(capacity: usize, compartor: F) -> (r: Self)
        requires
            forall|a: &T, b: &T| call_requires(compartor, (a, b)),
        ensures
            r.wf(),
            r@ == Multiset::<T>::empty(),
            r.capacity() == capacity,
            r.order().func() == compartor,
    {
        let r = PriorityQueue { data: Vec::new(), size: 0, capacity, compartor: CompareFn::new(compartor) };
        proof {
            assert(r.data@ =~= Seq::<T>::empty());
        }
        r
    }
}

impl<T, C: Compare<T>> PriorityQueue<T, C> {
    /// The elements in the queue.
    pub closed spec fn view(&self) -> Multiset<T> {
        self.data@.to_multiset()
    }

    /// The capacity the queue was made with.
    pub closed spec fn capacity(&self) -> nat {
        self.capacity as nat
    }

    /// The order of the queue.
    pub closed spec fn order(&self) -> C {
        self.compartor
    }

    /// The element at position `i` does not come after its parent's.
    closed spec fn fits(&self, i: int) -> bool {
        !self.compartor.before(self.data@[(i - 1) / 2], self.data@[i])
    }

    /// No element comes after its parent's.
    closed spec fn ordered(&self) -> bool {
        forall|i: int| 1 <= i < self.size ==> #[trigger] self.fits(i)
    }

    /// `size` counts the elements, and the order accepts every pair of them.
    closed spec fn base(&self) -> bool {
        &&& self.data@.len() == self.size
        &&& forall|a: T, b: T| #[trigger] self.compartor.accepts(a, b)
    }

    /// The queue is well formed; under a lawful order no element comes after its
    /// parent's.
    pub closed spec fn wf(&self) -> bool {
        &&& self.base()
        &&& self.compartor.lawful() ==> self.ordered()
    }

    /// Returns the number of elements.
    pub fn size(&self) -> (r: usize)
        requires
            self.wf(),
        ensures
            r == self@.len(),
    {
        self.size
    }

    /// Tells whether the queue holds no element.
    pub fn is_empty(&self) -> (r: bool)
        requires
            self.wf(),
        ensures
            r == (self@.len() == 0),
    {
        self.size == 0
    }

    /// Tells whether the number of elements has reached the capacity.
    pub fn is_full(&self) -> (r: bool)
        requires
            self.wf(),
        ensures
            r == (self@.len() == self.capacity()),
    {
        self.size == self.capacity
    }

    /// Removes every element.
    pub fn clear(&mut self)
        requires
            old(self).wf(),
        ensures
            final(self).wf(),
            final(self)@ == Multiset::<T>::empty(),
            final(self).capacity() == old(self).capacity(),
            final(self).order() == old(self).order(),
    {
        self.data.clear();
        self.size = 0;
        proof {
            assert(self.data@ =~= Seq::<T>::empty());
        }
    }

    /// Adds an element.
    pub fn push(&mut self, item: T)
        requires
            old(self).wf(),
            old(self)@.len() < usize::MAX,
        ensures
            final(self).wf(),
            final(self)@ == old(self)@.insert(item),
            final(self).capacity() == old(self).capacity(),
            final(self).order() == old(self).order(),
    {
        self.data.push(item);
        self.size = self.size + 1;
        proof {
            if self.compartor.lawful() {
                assert forall|i: int| 1 <= i < self.size && i != self.size - 1 implies #[trigger] self.fits(i) by {
                    assert(old(self).fits(i));
                }
            }
        }
        self.swim();
    }

    /// Removes the element at the front of the queue and returns it. Under a
    /// lawful order, it comes before no element of the queue.
    pub fn pop(&mut self) -> (r: T)
        requires
            old(self).wf(),
            old(self)@.len() > 0,
        ensures
            final(self).wf(),
            old(self)@.contains(r),
            final(self)@ == old(self)@.remove(r),
            final(self).capacity() == old(self).capacity(),
            final(self).order() == old(self).order(),
            old(self).order().lawful() ==> forall|x: T| old(self)@.contains(x) ==> !old(
                self,
            ).order().before(r, x),
    {
        let ghost s = self.data@;
        proof {
            if self.compartor.lawful() {
                assert forall|j: int| 1 <= j < self.size implies !self.compartor.before(s[(j - 1) / 2], #[trigger] s[j]) by {
                    assert(self.fits(j));
                }
                assert forall|x: T| old(self)@.contains(x) implies !self.compartor.before(s[0], x) by {
                    let k = choose|k: int| 0 <= k < s.len() && s[k] == x;
                    lemma_top_is_last(self.compartor, s, self.size as int, k);
                }
            }
        }
        let max = self.data.swap_remove(0);
        self.size = self.size - 1;
        proof {
            lemma_swap_remove_multiset(s, 0);
            assert(s.to_multiset().contains(s[0]));
            if self.compartor.lawful() {
                assert forall|i: int| 1 <= i < self.size && (i - 1) / 2 != 0 implies #[trigger] self.fits(i) by {
                    assert(old(self).fits(i));
                }
            }
        }
        self.sink();
        max
    }

    /// Ordered but for the link from `idx` to its parent, whose parent in turn does
    /// not come before the children of `idx`.
    closed spec fn rising(&self, idx: int) -> bool {
        &&& forall|i: int| 1 <= i < self.size && i != idx ==> #[trigger] self.fits(i)
        &&& idx >= 1 ==> forall|c: int|
            (c == 2 * idx + 1 || c == 2 * idx + 2) && c < self.size ==> !self.compartor.before(
                self.data@[(idx - 1) / 2],
                #[trigger] self.data@[c],
            )
    }

    /// Ordered but for the links from the children of `k` to `k`, whose parent
    /// does not come before those children.
    closed spec fn sinking(&self, k: int) -> bool {
        &&& forall|i: int| 1 <= i < self.size && (i - 1) / 2 != k ==> #[trigger] self.fits(i)
        &&& k >= 1 ==> forall|c: int|
            (c == 2 * k + 1 || c == 2 * k + 2) && c < self.size ==> !self.compartor.before(
                self.data@[(k - 1) / 2],
                #[trigger] self.data@[c],
            )
    }

    /// Moves the last element up towards the front.
    fn swim(&mut self)
        requires
            old(self).base(),
            old(self).size > 0,
            old(self).compartor.lawful() ==> old(self).rising(old(self).size - 1),
        ensures
            final(self).wf(),
            final(self)@ == old(self)@,
            final(self).capacity == old(self).capacity,
            final(self).compartor == old(self).compartor,
    {
        let mut idx = self.size - 1;
        while idx > 0 && self.less(&self.data[(idx - 1) / 2], &self.data[idx])
            invariant
                self.base(),
                idx < self.size,
                self@ == old(self)@,
                self.capacity == old(self).capacity,
                self.compartor == old(self).compartor,
                self.compartor.lawful() ==> self.rising(idx as int),
            decreases idx,
        {
            let p = (idx - 1) / 2;
            let ghost pre = *self;
            let ghost s = self.data@;
            swap_elements(&mut self.data, p, idx);
            proof {
                lemma_swap_multiset(s, p as int, idx as int);
                if self.compartor.lawful() {
                    self.lemma_rise(pre, idx as int);
                }
            }
            idx = p;
        }
        proof {
            if self.compartor.lawful() {
                assert forall|i: int| 1 <= i < self.size implies #[trigger] self.fits(i) by {}
            }
        }
    }

    proof fn lemma_rise(&self, pre: Self, idx: int)
        requires
            pre.base(),
            pre.compartor.lawful(),
            1 <= idx < pre.size,
            pre.rising(idx),
            pre.compartor.before(pre.data@[(idx - 1) / 2], pre.data@[idx]),
            self.compartor == pre.compartor,
            self.size == pre.size,
            self.data@ == pre.data@.update((idx - 1) / 2, pre.data@[idx]).update(idx, pre.data@[(idx - 1) / 2]),
        ensures
            self.rising((idx - 1) / 2),
    {
        let p = (idx - 1) / 2;
        let x = pre.data@[idx];
        let y = pre.data@[p];
        let cmp = self.compartor;
        cmp.lemma_order(y, x, y);
        assert forall|i: int| 1 <= i < self.size && i != p implies #[trigger] self.fits(i) by {
            if i == idx {
            } else if (i - 1) / 2 == idx {
                assert(self.data@[i] == pre.data@[i]);
            } else if (i - 1) / 2 == p {
                let z = pre.data@[i];
                assert(pre.fits(i));
                cmp.lemma_order(y, x, z);
            } else {
                assert(pre.fits(i));
            }
        }
        if p >= 1 {
            let g = pre.data@[(p - 1) / 2];
            assert(pre.fits(p));
            assert forall|c: int| (c == 2 * p + 1 || c == 2 * p + 2) && c < self.size implies !cmp.before(
                self.data@[(p - 1) / 2],
                #[trigger] self.data@[c],
            ) by {
                if c != idx {
                    let z = pre.data@[c];
                    assert(pre.fits(c));
                    cmp.lemma_order(g, y, z);
                }
            }
        }
    }

    /// Moves the front element down until no child comes after it.
    fn sink(&mut self)
        requires
            old(self).base(),
            old(self).compartor.lawful() ==> old(self).sinking(0),
        ensures
            final(self).wf(),
            final(self)@ == old(self)@,
            final(self).capacity == old(self).capacity,
            final(self).compartor == old(self).compartor,
    {
        let mut k: usize = 0;
        while k < self.size / 2
            invariant
                self.base(),
                k < self.size || self.size == 0,
                self@ == old(self)@,
                self.capacity == old(self).capacity,
                self.compartor == old(self).compartor,
                self.compartor.lawful() ==> self.sinking(k as int),
            ensures
                self.base(),
                self@ == old(self)@,
                self.capacity == old(self).capacity,
                self.compartor == old(self).compartor,
                self.compartor.lawful() ==> self.ordered(),
            decreases self.size - k,
        {
            let mut j = 2 * k + 1;
            if j + 1 < self.size {
                if self.less(&self.data[j], &self.data[j + 1]) {
                    j = j + 1;
                }
            }
            proof {
                if self.compartor.lawful() {
                    let l = self.data@[2 * k + 1];
                    self.compartor.lemma_order(l, l, l);
                    if 2 * k + 2 < self.size {
                        let rv = self.data@[2 * k + 2];
                        self.compartor.lemma_order(rv, rv, rv);
                        self.compartor.lemma_order(l, rv, l);
                    }
                }
            }
            if !self.less(&self.data[k], &self.data[j]) {
                proof {
                    if self.compartor.lawful() {
                        assert forall|i: int| 1 <= i < self.size implies #[trigger] self.fits(i) by {
                            if (i - 1) / 2 == k {
                                self.compartor.lemma_order(self.data@[k as int], self.data@[j as int], self.data@[i]);
                            }
                        }
                    }
                }
                break;
            }
            let ghost pre = *self;
            let ghost s = self.data@;
            swap_elements(&mut self.data, k, j);
            proof {
                lemma_swap_multiset(s, k as int, j as int);
                if self.compartor.lawful() {
                    self.lemma_sink(pre, k as int, j as int);
                }
            }
            k = j;
        }
        proof {
            if self.compartor.lawful() {
                assert forall|i: int| 1 <= i < self.size implies #[trigger] self.fits(i) by {}
            }
        }
    }

    proof fn lemma_sink(&self, pre: Self, k: int, j: int)
        requires
            pre.base(),
            pre.compartor.lawful(),
            0 <= k,
            j == 2 * k + 1 || j == 2 * k + 2,
            j < pre.size,
            pre.sinking(k),
            forall|c: int|
                (c == 2 * k + 1 || c == 2 * k + 2) && c < pre.size ==> !pre.compartor.before(
                    pre.data@[j],
                    #[trigger] pre.data@[c],
                ),
            pre.compartor.before(pre.data@[k], pre.data@[j]),
            self.compartor == pre.compartor,
            self.size == pre.size,
            self.data@ == pre.data@.update(k, pre.data@[j]).update(j, pre.data@[k]),
        ensures
            self.sinking(j),
    {
        let cmp = self.compartor;
        let x = pre.data@[k];
        let m = pre.data@[j];
        assert((j - 1) / 2 == k);
        cmp.lemma_order(x, m, x);
        assert forall|i: int| 1 <= i < self.size && (i - 1) / 2 != j implies #[trigger] self.fits(i) by {
            if i == j {
            } else if (i - 1) / 2 == k {
                assert(pre.data@[i] == self.data@[i]);
            } else if i == k {
            } else {
                assert(pre.fits(i));
            }
        }
        assert forall|c: int| (c == 2 * j + 1 || c == 2 * j + 2) && c < self.size implies !cmp.before(
            self.data@[(j - 1) / 2],
            #[trigger] self.data@[c],
        ) by {
            assert(pre.fits(c));
        }
    }

    /// Tells whether `c1` comes before `c2` in the queue's order.
    fn less(&self, c1: &T, c2: &T) -> (r: bool)
        requires
            self.base(),
        ensures
            self.compartor.lawful() ==> (r == self.compartor.before(*c1, *c2)),
    {
        matches!(self.compartor.compare(c1, c2), Some(Ordering::Less))
    }
}

} // verus!
