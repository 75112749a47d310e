use vstd::prelude::*;

verus! {

/// The link that the node at position `i` of `order` holds towards its predecessor.
pub open spec fn prev_link(order: Seq<usize>, i: int) -> Option<usize> {
    if i == 0 {
        None
    } else {
        Some(order[i - 1])
    }
}

/// The link that the node at position `i` of `order` holds towards its successor.
pub open spec fn next_link(order: Seq<usize>, i: int) -> Option<usize> {
    if i == order.len() - 1 {
        None
    } else {
        Some(order[i + 1])
    }
}

/// The end links and the two-way adjacency of a chain whose nodes, in list order,
/// sit in the slots `order`.
pub open spec fn links_ok(
    order: Seq<usize>,
    prev: Seq<Option<usize>>,
    next: Seq<Option<usize>>,
    head: Option<usize>,
    tail: Option<usize>,
) -> bool {
    &&& head == (if order.len() == 0 { None } else { Some(order[0]) })
    &&& tail == (if order.len() == 0 { None } else { Some(order[order.len() - 1]) })
    &&& forall|i: int|
        #![trigger prev[order[i] as int]]
        #![trigger next[order[i] as int]]
        0 <= i < order.len() ==> {
            &&& order[i] < prev.len()
            &&& order[i] < next.len()
            &&& prev[order[i] as int] == prev_link(order, i)
            &&& next[order[i] as int] == next_link(order, i)
        }
}

/// `order` lists every slot below `n` exactly once, and `pos` is its inverse.
pub open spec fn perm_ok(order: Seq<usize>, pos: Seq<int>, n: int) -> bool {
    &&& order.len() == n
    &&& pos.len() == n
    &&& forall|i: int| 0 <= i < n ==> (#[trigger] order[i]) < n && pos[order[i] as int] == i
    &&& forall|k: int| 0 <= k < n ==> 0 <= (#[trigger] pos[k]) < n && order[pos[k]] == k
}

/// Position `q` once the entry at position `p` has been taken out.
pub open spec fn shift_down(q: int, p: int) -> int {
    if q > p {
        q - 1
    } else {
        q
    }
}

/// The slot that a node lands in when the node of slot `last` moves into slot `s`.
pub open spec fn rename(x: usize, s: usize, last: usize) -> usize {
    if x == last {
        s
    } else {
        x
    }
}

/// A link after the node of slot `last` has moved into slot `s`.
pub open spec fn rename_link(l: Option<usize>, s: usize, last: usize) -> Option<usize> {
    match l {
        Some(x) => Some(rename(x, s, last)),
        None => None,
    }
}

/// The slot that slot `k` took its node from when the node of `last` moved into `s`.
pub open spec fn source_slot(k: int, s: usize, last: usize) -> int {
    if k == s {
        last as int
    } else {
        k
    }
}

proof fn lemma_remove_from_perm(o: Seq<usize>, pos: Seq<int>, p: int, n: int)
    requires
        perm_ok(o, pos, n),
        0 <= p < n,
    ensures
        forall|i: int| 0 <= i < n - 1 ==> #[trigger] o.remove(p)[i] == (if i < p {
            o[i]
        } else {
            o[i + 1]
        }),
        forall|i: int| 0 <= i < n - 1 ==> (#[trigger] o.remove(p)[i]) < n && o.remove(p)[i] != o[p],
        forall|k: int|
            0 <= k < n && k != o[p] ==> 0 <= #[trigger] shift_down(pos[k], p) < n - 1 && o.remove(
                p,
            )[shift_down(pos[k], p)] == k,
{
    let o1 = o.remove(p);
    assert forall|i: int, j: int| 0 <= i < n && 0 <= j < n && i != j implies #[trigger] o[i]
        != #[trigger] o[j] by {
        assert(pos[o[i] as int] == i);
    }
    assert forall|i: int| 0 <= i < n - 1 implies #[trigger] o1[i] == (if i < p {
        o[i]
    } else {
        o[i + 1]
    }) by {}
    assert forall|k: int| 0 <= k < n && k != o[p] implies 0 <= #[trigger] shift_down(pos[k], p) < n
        - 1 && o1[shift_down(pos[k], p)] == k by {
        assert(pos[k] != p);
    }
}

/// What holds of the links once slot `s` is detached, with `last` the highest slot:
/// nothing points at `s`, and only the neighbours of `last` (or the ends) point at it.
pub open spec fn moved_links_ok(
    prev: Seq<Option<usize>>,
    next: Seq<Option<usize>>,
    head: Option<usize>,
    tail: Option<usize>,
    s: usize,
    last: usize,
) -> bool {
    &&& head != Some(s)
    &&& tail != Some(s)
    &&& forall|k: int|
        0 <= k <= last && k != s ==> {
            &&& #[trigger] prev[k] != Some(s)
            &&& next[k] != Some(s)
            &&& prev[k] == Some(last) ==> next[last as int] == Some(k as usize)
            &&& next[k] == Some(last) ==> prev[last as int] == Some(k as usize)
        }
    &&& s != last ==> {
        &&& head == Some(last) <==> prev[last as int] == None::<usize>
        &&& tail == Some(last) <==> next[last as int] == None::<usize>
        &&& prev[last as int] matches Some(a) ==> a < last && a != s && next[a as int] == Some(last)
        &&& next[last as int] matches Some(b) ==> b < last && b != s && prev[b as int] == Some(last)
    }
}

/// The links of a chain point at nodes of the chain, and only a node's neighbours
/// point at it.
proof fn lemma_links_point_within(
    o1: Seq<usize>,
    prev: Seq<Option<usize>>,
    next: Seq<Option<usize>>,
    head: Option<usize>,
    tail: Option<usize>,
    i: int,
    x: usize,
    j: int,
)
    requires
        links_ok(o1, prev, next, head, tail),
        0 <= i < o1.len(),
        0 <= j < o1.len(),
        o1[j] == x,
        forall|a: int, b: int|
            0 <= a < o1.len() && 0 <= b < o1.len() && a != b ==> #[trigger] o1[a] != #[trigger] o1[b],
    ensures
        prev[o1[i] as int] == Some(x) ==> j == i - 1 && next[x as int] == Some(o1[i]),
        next[o1[i] as int] == Some(x) ==> j == i + 1 && prev[x as int] == Some(o1[i]),
{
    assert(prev[o1[i] as int] == prev_link(o1, i));
    assert(next[o1[i] as int] == next_link(o1, i));
    assert(prev[o1[j] as int] == prev_link(o1, j));
    assert(next[o1[j] as int] == next_link(o1, j));
    if i > 0 && prev[o1[i] as int] == Some(x) {
        assert(o1[i - 1] == x);
    }
    if i + 1 < o1.len() && next[o1[i] as int] == Some(x) {
        assert(o1[i + 1] == x);
    }
}

proof fn lemma_removed_distinct(o: Seq<usize>, pos: Seq<int>, p: int)
    requires
        perm_ok(o, pos, o.len() as int),
        0 <= p < o.len(),
    ensures
        forall|a: int, b: int|
            0 <= a < o.len() - 1 && 0 <= b < o.len() - 1 && a != b ==> #[trigger] o.remove(p)[a]
                != #[trigger] o.remove(p)[b],
{
    let o1 = o.remove(p);
    assert forall|a: int, b: int|
        0 <= a < o1.len() && 0 <= b < o1.len() && a != b implies #[trigger] o1[a] != #[trigger] o1[b] by {
        let a0 = if a < p { a } else { a + 1 };
        let b0 = if b < p { b } else { b + 1 };
        assert(o1[a] == o[a0]);
        assert(o1[b] == o[b0]);
        assert(pos[o[a0] as int] == a0);
        assert(pos[o[b0] as int] == b0);
    }
}

proof fn lemma_detached_links(
    o: Seq<usize>,
    pos: Seq<int>,
    p: int,
    prev: Seq<Option<usize>>,
    next: Seq<Option<usize>>,
    head: Option<usize>,
    tail: Option<usize>,
)
    requires
        perm_ok(o, pos, o.len() as int),
        0 <= p < o.len(),
        links_ok(o.remove(p), prev, next, head, tail),
        o.len() <= usize::MAX,
        prev.len() == o.len(),
        next.len() == o.len(),
    ensures
        moved_links_ok(prev, next, head, tail, o[p], (o.len() - 1) as usize),
{
    let n = o.len() as int;
    let s = o[p];
    let last = (n - 1) as usize;
    lemma_remove_from_perm(o, pos, p, n);
    lemma_removed_distinct(o, pos, p);
    let o1 = o.remove(p);
    assert forall|k: int| 0 <= k <= last && k != s implies {
        &&& #[trigger] prev[k] != Some(s)
        &&& next[k] != Some(s)
        &&& prev[k] == Some(last) ==> next[last as int] == Some(k as usize)
        &&& next[k] == Some(last) ==> prev[last as int] == Some(k as usize)
    } by {
        let i = shift_down(pos[k], p);
        assert(o1[i] == k);
        if k != last && s != last {
            let j = shift_down(pos[last as int], p);
            assert(o1[j] == last);
            lemma_links_point_within(o1, prev, next, head, tail, i, last, j);
        }
        assert(prev[o1[i] as int] == prev_link(o1, i));
        assert(next[o1[i] as int] == next_link(o1, i));
        if i > 0 {
            assert(o1[i - 1] != s);
        }
        if i + 1 < o1.len() {
            assert(o1[i + 1] != s);
        }
    }
    assert(head != Some(s) && tail != Some(s)) by {
        if o1.len() > 0 {
            assert(o1[0] != s);
            assert(o1[o1.len() - 1] != s);
        }
    }
    if s != last {
        lemma_detached_last(o, pos, p, prev, next, head, tail);
    }
}

proof fn lemma_detached_last(
    o: Seq<usize>,
    pos: Seq<int>,
    p: int,
    prev: Seq<Option<usize>>,
    next: Seq<Option<usize>>,
    head: Option<usize>,
    tail: Option<usize>,
)
    requires
        perm_ok(o, pos, o.len() as int),
        0 <= p < o.len(),
        links_ok(o.remove(p), prev, next, head, tail),
        o.len() <= usize::MAX,
        prev.len() == o.len(),
        next.len() == o.len(),
        o[p] != o.len() - 1,
    ensures
        ({
            let s = o[p];
            let last = (o.len() - 1) as usize;
            &&& head == Some(last) <==> prev[last as int] == None::<usize>
            &&& tail == Some(last) <==> next[last as int] == None::<usize>
            &&& prev[last as int] matches Some(a) ==> a < last && a != s && next[a as int] == Some(last)
            &&& next[last as int] matches Some(b) ==> b < last && b != s && prev[b as int] == Some(last)
        }),
{
    let n = o.len() as int;
    let s = o[p];
    let last = (n - 1) as usize;
    lemma_remove_from_perm(o, pos, p, n);
    lemma_removed_distinct(o, pos, p);
    let o1 = o.remove(p);
    {
        let pl = shift_down(pos[last as int], p);
        assert(o1[pl] == last);
        assert(prev[last as int] == prev_link(o1, pl));
        assert(next[last as int] == next_link(o1, pl));
        if pl > 0 {
            assert(o1[pl - 1] != last);
            assert(o1[pl - 1] != s);
            assert(next[o1[pl - 1] as int] == next_link(o1, pl - 1));
        }
        if pl + 1 < o1.len() {
            assert(o1[pl + 1] != last);
            assert(o1[pl + 1] != s);
            assert(prev[o1[pl + 1] as int] == prev_link(o1, pl + 1));
        }
        if head == Some(last) {
            assert(o1[0] == last);
        }
        if tail == Some(last) {
            assert(o1[o1.len() - 1] == last);
        }
    }
}

/// Renaming slot `last` to `s` in a chain that avoids `s` keeps its links intact.
proof fn lemma_rename_links(
    o1: Seq<usize>,
    prev1: Seq<Option<usize>>,
    next1: Seq<Option<usize>>,
    head1: Option<usize>,
    tail1: Option<usize>,
    prev2: Seq<Option<usize>>,
    next2: Seq<Option<usize>>,
    s: usize,
    last: usize,
)
    requires
        links_ok(o1, prev1, next1, head1, tail1),
        s <= last,
        prev2.len() == last,
        next2.len() == last,
        forall|i: int| 0 <= i < o1.len() ==> (#[trigger] o1[i]) <= last && o1[i] != s,
        forall|k: int|
            0 <= k < last ==> #[trigger] prev2[k] == rename_link(
                prev1[source_slot(k, s, last)],
                s,
                last,
            ) && next2[k] == rename_link(next1[source_slot(k, s, last)], s, last),
    ensures
        links_ok(
            o1.map_values(|x: usize| rename(x, s, last)),
            prev2,
            next2,
            rename_link(head1, s, last),
            rename_link(tail1, s, last),
        ),
{
    let o2 = o1.map_values(|x: usize| rename(x, s, last));
    assert forall|i: int| 0 <= i < o2.len() implies {
        &&& o2[i] < prev2.len()
        &&& o2[i] < next2.len()
        &&& #[trigger] prev2[o2[i] as int] == prev_link(o2, i)
        &&& next2[o2[i] as int] == next_link(o2, i)
    } by {
        let k = o1[i];
        let k2 = o2[i];
        assert(k2 == rename(k, s, last));
        assert(k2 < last);
        assert(source_slot(k2 as int, s, last) == k as int);
        assert(prev2[k2 as int] == rename_link(prev1[k as int], s, last));
        assert(next2[k2 as int] == rename_link(next1[k as int], s, last));
        assert(prev1[k as int] == prev_link(o1, i));
        assert(next1[k as int] == next_link(o1, i));
        if i > 0 {
            assert(o2[i - 1] == rename(o1[i - 1], s, last));
        }
        if i + 1 < o2.len() {
            assert(o2[i + 1] == rename(o1[i + 1], s, last));
        }
    }
    if o1.len() > 0 {
        assert(o2[0] == rename(o1[0], s, last));
        assert(o2[o2.len() - 1] == rename(o1[o1.len() - 1], s, last));
    }
}

/// After taking out position `p` (slot `s`) and moving slot `last` into `s`, the
/// order and the positions are again inverse permutations.
proof fn lemma_rename_perm(o: Seq<usize>, pos: Seq<int>, p: int, s: usize, last: usize)
    requires
        perm_ok(o, pos, last + 1),
        0 <= p <= last,
        o[p] == s,
    ensures
        perm_ok(
            o.remove(p).map_values(|x: usize| rename(x, s, last)),
            Seq::new(last as nat, |k: int| shift_down(pos[source_slot(k, s, last)], p)),
            last as int,
        ),
{
    lemma_remove_from_perm(o, pos, p, last + 1);
    let o1 = o.remove(p);
    let o2 = o1.map_values(|x: usize| rename(x, s, last));
    let pos2 = Seq::new(last as nat, |k: int| shift_down(pos[source_slot(k, s, last)], p));
    assert forall|i: int| 0 <= i < last implies (#[trigger] o2[i]) < last && pos2[o2[i] as int]
        == i by {
        assert(o2[i] == rename(o1[i], s, last));
        if o1[i] == last {
            assert(s != last);
        }
        assert(source_slot(o2[i] as int, s, last) == o1[i]);
        if i < p {
            assert(pos[o[i] as int] == i);
        } else {
            assert(pos[o[i + 1] as int] == i + 1);
        }
    }
    assert forall|k: int| 0 <= k < last implies 0 <= (#[trigger] pos2[k]) < last && o2[pos2[k]]
        == k by {
        let q = source_slot(k, s, last);
        assert(q != s);
        let q1 = shift_down(pos[q], p);
        assert(o1[q1] == q);
        assert(o2[q1] == rename(o1[q1], s, last));
    }
}


/// The positions once slot `n` has been inserted at position `ix`.
pub open spec fn insert_pos(pos: Seq<int>, ix: int, n: usize) -> Seq<int> {
    Seq::new(
        (n + 1) as nat,
        |k: int|
            if k == n {
                ix
            } else if pos[k] >= ix {
                pos[k] + 1
            } else {
                pos[k]
            },
    )
}

proof fn lemma_insert_perm(o: Seq<usize>, pos: Seq<int>, ix: int, n: usize)
    requires
        perm_ok(o, pos, n as int),
        0 <= ix <= n,
    ensures
        perm_ok(o.insert(ix, n), insert_pos(pos, ix, n), n + 1),
        forall|i: int, j: int|
            0 <= i < n && 0 <= j < n && i != j ==> #[trigger] o[i] != #[trigger] o[j],
{
    let o2 = o.insert(ix, n);
    let pos2 = insert_pos(pos, ix, n);
    assert forall|i: int| 0 <= i <= n implies #[trigger] o2[i] == (if i < ix {
        o[i]
    } else if i == ix {
        n
    } else {
        o[i - 1]
    }) by {}
    assert forall|i: int, j: int| 0 <= i < n && 0 <= j < n && i != j implies #[trigger] o[i]
        != #[trigger] o[j] by {
        assert(pos[o[i] as int] == i);
    }
    assert forall|i: int| 0 <= i < n + 1 implies (#[trigger] o2[i]) < n + 1 && pos2[o2[i] as int]
        == i by {
        if i < ix {
            assert(pos[o[i] as int] == i);
        } else if i > ix {
            assert(pos[o[i - 1] as int] == i - 1);
        }
    }
    assert forall|k: int| 0 <= k < n + 1 implies 0 <= (#[trigger] pos2[k]) < n + 1 && o2[pos2[k]]
        == k by {
        if k < n {
            assert(o[pos[k]] == k);
        }
    }
}

/// `offer_tail(v)` followed by `poll_head()` gives the list back its former size,
/// and on an empty list hands back `v` itself.
pub proof fn lemma_offer_tail_then_poll_head<T>(s: Seq<T>, v: T)
    ensures
        s.push(v).len() > 0,
        s.push(v).drop_first().len() == s.len(),
        s.len() == 0 ==> s.push(v)[0] == v && s.push(v).drop_first() == s,
{
    if s.len() == 0 {
        assert(s.push(v).drop_first() =~= s);
    }
}

/// Inserting at position `size()` has the same effect as `offer_tail`.
pub proof fn lemma_insert_at_end<T>(s: Seq<T>, v: T)
    ensures
        s.insert(s.len() as int, v) == s.push(v),
{
    assert(s.insert(s.len() as int, v) =~= s.push(v));
}

/// Doubly linked list.
///
/// Elements can be added and removed at either end in O(1); adding or removing by
/// index walks the chain from the head and takes O(n).
///
/// Nodes live in a slot arena: slot `k` holds a value in `vals[k]` and the slots of
/// its neighbours in `prev[k]` and `next[k]`. Every slot below `size` is a live node,
/// so removing a node releases its slot at once.
pub struct LinkedList<T> {
    size: usize,
    head: Option<usize>,
    tail: Option<usize>,
    vals: Vec<T>,
    prev: Vec<Option<usize>>,
    next: Vec<Option<usize>>,
    order: Ghost<Seq<usize>>,
    pos: Ghost<Seq<int>>,
}

impl<T> LinkedList<T> {
    /// The list is well formed: the counts agree, each live slot is a node of the
    /// chain exactly once, and the links run both ways between neighbours.
    pub closed spec fn wf(&self) -> bool {
        &&& self.vals.len() == self.size
        &&& self.prev.len() == self.size
        &&& self.next.len() == self.size
        &&& perm_ok(self.order@, self.pos@, self.size as int)
        &&& links_ok(self.order@, self.prev@, self.next@, self.head, self.tail)
    }

    /// The elements, from head to tail.
    pub closed spec fn view(&self) -> Seq<T> {
        Seq::new(self.order@.len(), |i: int| self.vals@[self.order@[i] as int])
    }

    /// Number of arena slots that hold a node.
    pub closed spec fn live_slots(&self) -> nat {
        self.vals@.len()
    }

    /// The slot reached from the head by following `steps` successor links.
    pub closed spec fn walk_forward(&self, steps: nat) -> Option<usize>
        decreases steps,
    {
        if steps == 0 {
            self.head
        } else {
            match self.walk_forward((steps - 1) as nat) {
                None => None,
                Some(k) => if k < self.next@.len() {
                    self.next@[k as int]
                } else {
                    None
                },
            }
        }
    }

    /// The slot reached from the tail by following `steps` predecessor links.
    pub closed spec fn walk_backward(&self, steps: nat) -> Option<usize>
        decreases steps,
    {
        if steps == 0 {
            self.tail
        } else {
            match self.walk_backward((steps - 1) as nat) {
                None => None,
                Some(k) => if k < self.prev@.len() {
                    self.prev@[k as int]
                } else {
                    None
                },
            }
        }
    }

    /// The value held in slot `k`.
    pub closed spec fn slot_value(&self, k: usize) -> T {
        self.vals@[k as int]
    }

    /// Creates an empty list.
    pub fn new() -> (r: Self)
        ensures
            r.wf(),
            r@ == Seq::<T>::empty(),
    {
        let r = LinkedList {
            size: 0,
            head: None,
            tail: None,
            vals: Vec::new(),
            prev: Vec::new(),
            next: Vec::new(),
            order: Ghost(Seq::empty()),
            pos: Ghost(Seq::empty()),
        };
        assert(r@ =~= Seq::<T>::empty());
        r
    }

    /// Returns the number of elements in the list.
    pub fn size(&self) -> (r: usize)
        requires
            self.wf(),
        ensures
            r == self@.len(),
    {
        self.size
    }

    /// Adds an element in front of the head.
    pub fn offer_head(&mut self, val: T)
        requires
            old(self).wf(),
            old(self)@.len() < usize::MAX,
        ensures
            final(self).wf(),
            final(self)@ == seq![val] + old(self)@,
    {
        let n = self.size;
        let ghost old_order = self.order@;
        let ghost old_pos = self.pos@;
        self.vals.push(val);
        self.prev.push(None);
        self.next.push(self.head);
        match self.head {
            None => {
                self.tail = Some(n);
            },
            Some(h) => {
                self.prev.set(h, Some(n));
            },
        }
        self.head = Some(n);
        self.size = n + 1;
        proof {
            self.order@ = seq![n] + old_order;
            self.pos@ = Seq::new((n + 1) as nat, |k: int| if k == n { 0 } else { old_pos[k] + 1 });
            let o = self.order@;
            assert forall|i: int| 0 <= i < n + 1 implies (#[trigger] o[i]) < n + 1 && self.pos@[o[i] as int] == i by {
                if i > 0 {
                    assert(o[i] == old_order[i - 1]);
                }
            }
            assert forall|k: int| 0 <= k < n + 1 implies 0 <= (#[trigger] self.pos@[k]) < n + 1 && o[self.pos@[k]] == k by {
                if k < n {
                    assert(o[old_pos[k] + 1] == old_order[old_pos[k]]);
                }
            }
            assert forall|i: int| 0 <= i < o.len() implies {
                &&& o[i] < self.prev@.len()
                &&& o[i] < self.next@.len()
                &&& #[trigger] self.prev@[o[i] as int] == prev_link(o, i)
                &&& self.next@[o[i] as int] == next_link(o, i)
            } by {
                if i > 0 {
                    assert(o[i] == old_order[i - 1]);
                    assert(old_order[i - 1] < n);
                    if i > 1 {
                        assert(o[i - 1] == old_order[i - 2]);
                    }
                    if i < n {
                        assert(o[i + 1] == old_order[i]);
                    }
                }
            }
            assert(self@ =~= seq![val] + old(self)@) by {
                assert forall|i: int| 0 < i < n + 1 implies o[i] == old_order[i - 1] && old_order[i - 1] < n by {}
            }
        }
    }

    /// Adds an element after the tail.
    pub fn offer_tail(&mut self, val: T)
        requires
            old(self).wf(),
            old(self)@.len() < usize::MAX,
        ensures
            final(self).wf(),
            final(self)@ == old(self)@.push(val),
    {
        let n = self.size;
        let ghost old_order = self.order@;
        let ghost old_pos = self.pos@;
        self.vals.push(val);
        self.prev.push(self.tail);
        self.next.push(None);
        match self.tail {
            None => {
                self.head = Some(n);
            },
            Some(t) => {
                self.next.set(t, Some(n));
            },
        }
        self.tail = Some(n);
        self.size = n + 1;
        proof {
            self.order@ = old_order.push(n);
            self.pos@ = old_pos.push(n as int);
            let o = self.order@;
            assert forall|i: int| 0 <= i < o.len() implies {
                &&& o[i] < self.prev@.len()
                &&& o[i] < self.next@.len()
                &&& #[trigger] self.prev@[o[i] as int] == prev_link(o, i)
                &&& self.next@[o[i] as int] == next_link(o, i)
            } by {
                if i < n {
                    assert(o[i] == old_order[i]);
                    assert(old_order[i] < n);
                }
            }
            assert(self@ =~= old(self)@.push(val)) by {
                assert forall|i: int| 0 <= i < n implies o[i] == old_order[i] && old_order[i] < n by {}
            }
        }
    }

    /// Unlinks the node in slot `s`, which stands at position `p`, from its
    /// neighbours and from the ends; the slot itself is left in place.
    fn detach(&mut self, s: usize, p: Ghost<int>)
        requires
            old(self).wf(),
            0 <= p@ < old(self)@.len(),
            old(self).order@[p@] == s,
        ensures
            links_ok(
                old(self).order@.remove(p@),
                final(self).prev@,
                final(self).next@,
                final(self).head,
                final(self).tail,
            ),
            final(self).vals@ == old(self).vals@,
            final(self).prev@.len() == old(self).prev@.len(),
            final(self).next@.len() == old(self).next@.len(),
            final(self).size == old(self).size,
            final(self).order == old(self).order,
            final(self).pos == old(self).pos,
    {
        let ghost o0 = self.order@;
        let ghost len = self.size as int;
        let ghost p = p@;
        let pr = self.prev[s];
        let nx = self.next[s];
        assert(pr == prev_link(o0, p));
        assert(nx == next_link(o0, p));
        match pr {
            Some(a) => {
                self.next.set(a, nx);
            },
            None => {
                self.head = nx;
            },
        }
        match nx {
            Some(b) => {
                self.prev.set(b, pr);
            },
            None => {
                self.tail = pr;
            },
        }
        proof {
            let o1 = o0.remove(p);
            assert forall|i: int, j: int|
                0 <= i < len && 0 <= j < len && i != j implies #[trigger] o0[i] != #[trigger] o0[j] by {
                assert(self.pos@[o0[i] as int] == i);
            }
            assert forall|i: int| 0 <= i < o1.len() implies {
                &&& o1[i] < self.prev@.len()
                &&& o1[i] < self.next@.len()
                &&& #[trigger] self.prev@[o1[i] as int] == prev_link(o1, i)
                &&& self.next@[o1[i] as int] == next_link(o1, i)
            } by {
                if i < p {
                    assert(o1[i] == o0[i]);
                    if i > 0 {
                        assert(o1[i - 1] == o0[i - 1]);
                    }
                    if i + 1 < p {
                        assert(o1[i + 1] == o0[i + 1]);
                    }
                    if i + 1 == p && p + 1 < len {
                        assert(o1[i + 1] == o0[p + 1]);
                    }
                } else {
                    assert(o1[i] == o0[i + 1]);
                    if i > p {
                        assert(o1[i - 1] == o0[i]);
                    }
                    if i == p && p > 0 {
                        assert(o1[i - 1] == o0[p - 1]);
                    }
                    if i + 1 < o1.len() {
                        assert(o1[i + 1] == o0[i + 2]);
                    }
                }
            }
        }
    }

    /// Takes the value out of slot `s` and moves the node of the last slot into it,
    /// pointing the links that reached the last slot at `s`.
    fn move_last_into(&mut self, s: usize) -> (r: T)
        requires
            old(self).vals.len() == old(self).size,
            old(self).prev.len() == old(self).size,
            old(self).next.len() == old(self).size,
            s < old(self).size,
            moved_links_ok(
                old(self).prev@,
                old(self).next@,
                old(self).head,
                old(self).tail,
                s,
                (old(self).size - 1) as usize,
            ),
        ensures
            ({
                let last = (old(self).size - 1) as usize;
                &&& final(self).size == last
                &&& final(self).vals.len() == last
                &&& final(self).prev.len() == last
                &&& final(self).next.len() == last
                &&& r == old(self).vals@[s as int]
                &&& final(self).head == rename_link(old(self).head, s, last)
                &&& final(self).tail == rename_link(old(self).tail, s, last)
                &&& forall|k: int|
                    0 <= k < last ==> {
                        &&& #[trigger] final(self).prev@[k] == rename_link(
                            old(self).prev@[source_slot(k, s, last)],
                            s,
                            last,
                        )
                        &&& final(self).next@[k] == rename_link(
                            old(self).next@[source_slot(k, s, last)],
                            s,
                            last,
                        )
                        &&& final(self).vals@[k] == old(self).vals@[source_slot(k, s, last)]
                    }
            }),
            final(self).order == old(self).order,
            final(self).pos == old(self).pos,
    {
        let last = self.size - 1;
        let ghost prev0 = self.prev@;
        let ghost next0 = self.next@;
        let val = self.vals.swap_remove(s);
        self.prev.swap_remove(s);
        self.next.swap_remove(s);
        let ghost prev1 = self.prev@;
        let ghost next1 = self.next@;
        assert forall|k: int| 0 <= k < last implies #[trigger] prev1[k] == prev0[source_slot(k, s, last)]
            && next1[k] == next0[source_slot(k, s, last)] by {}
        if s != last {
            match self.prev[s] {
                Some(a) => {
                    self.next.set(a, Some(s));
                },
                None => {
                    self.head = Some(s);
                },
            }
            match self.next[s] {
                Some(b) => {
                    self.prev.set(b, Some(s));
                },
                None => {
                    self.tail = Some(s);
                },
            }
        }
        self.size = last;
        proof {
            if s == last {
                assert forall|k: int| 0 <= k < last implies {
                    &&& #[trigger] self.prev@[k] == rename_link(prev0[source_slot(k, s, last)], s, last)
                    &&& self.next@[k] == rename_link(next0[source_slot(k, s, last)], s, last)
                } by {
                    assert(prev0[k] != Some(s));
                    assert(next0[k] != Some(s));
                }
            } else {
                assert forall|k: int| 0 <= k < last implies {
                    &&& #[trigger] self.prev@[k] == rename_link(prev0[source_slot(k, s, last)], s, last)
                    &&& self.next@[k] == rename_link(next0[source_slot(k, s, last)], s, last)
                } by {
                    let j = source_slot(k, s, last);
                    if k == s {
                        assert(prev0[last as int] != Some(last));
                        assert(next0[last as int] != Some(last));
                    } else {
                        assert(prev0[k] != Some(s));
                        assert(next0[k] != Some(s));
                        if prev0[k] == Some(last) {
                            assert(next0[last as int] == Some(k as usize));
                        }
                        if next0[k] == Some(last) {
                            assert(prev0[last as int] == Some(k as usize));
                        }
                    }
                }
            }
        }
        val
    }

    /// Detaches the node in slot `s`, which stands at position `p`, and returns its
    /// value. The node in the last slot moves into the freed slot, so that the live
    /// slots stay the ones below `size`.
    fn unlink_slot(&mut self, s: usize, p: Ghost<int>) -> (r: T)
        requires
            old(self).wf(),
            0 <= p@ < old(self)@.len(),
            old(self).order@[p@] == s,
        ensures
            final(self).wf(),
            final(self)@ == old(self)@.remove(p@),
            r == old(self)@[p@],
    {
        let ghost o0 = self.order@;
        let ghost pos0 = self.pos@;
        let ghost vals0 = self.vals@;
        let ghost p = p@;
        let ghost o1 = o0.remove(p);
        self.detach(s, Ghost(p));
        let last = self.size - 1;
        proof {
            lemma_remove_from_perm(o0, pos0, p, last as int + 1);
            lemma_detached_links(o0, pos0, p, self.prev@, self.next@, self.head, self.tail);
        }
        let ghost prev1 = self.prev@;
        let ghost next1 = self.next@;
        let ghost head1 = self.head;
        let ghost tail1 = self.tail;
        let val = self.move_last_into(s);
        proof {
            lemma_rename_links(o1, prev1, next1, head1, tail1, self.prev@, self.next@, s, last);
            self.order@ = o1.map_values(|x: usize| rename(x, s, last));
            self.pos@ = Seq::new(last as nat, |k: int| shift_down(pos0[source_slot(k, s, last)], p));
            lemma_rename_perm(o0, pos0, p, s, last);
            assert(self@ =~= old(self)@.remove(p)) by {
                assert forall|i: int| 0 <= i < o1.len() implies #[trigger] old(self)@.remove(p)[i]
                    == vals0[o1[i] as int] by {}
                assert forall|i: int| 0 <= i < o1.len() implies #[trigger] self@[i] == vals0[o1[i] as int] by {
                    let k = rename(o1[i], s, last);
                    assert(self.order@[i] == k);
                    assert(k < last);
                    assert(self.prev@[k as int] == rename_link(prev1[source_slot(k as int, s, last)], s, last));
                    assert(source_slot(k as int, s, last) == o1[i]);
                }
            }
        }
        val
    }

    /// Removes the head element and returns it, or returns `None` when the list is
    /// empty.
    pub fn poll_head(&mut self) -> (r: Option<T>)
        requires
            old(self).wf(),
        ensures
            final(self).wf(),
            old(self)@.len() == 0 ==> r == None::<T> && final(self)@ == old(self)@,
            old(self)@.len() > 0 ==> r == Some(old(self)@[0]) && final(self)@ == old(
                self,
            )@.drop_first(),
    {
        match self.head {
            None => None,
            Some(h) => {
                let v = self.unlink_slot(h, Ghost(0));
                proof {
                    assert(old(self)@.remove(0) =~= old(self)@.drop_first());
                }
                Some(v)
            },
        }
    }

    /// Removes the tail element and returns it, or returns `None` when the list is
    /// empty.
    pub fn poll_tail(&mut self) -> (r: Option<T>)
        requires
            old(self).wf(),
        ensures
            final(self).wf(),
            old(self)@.len() == 0 ==> r == None::<T> && final(self)@ == old(self)@,
            old(self)@.len() > 0 ==> r == Some(old(self)@.last()) && final(self)@ == old(
                self,
            )@.drop_last(),
    {
        match self.tail {
            None => None,
            Some(t) => {
                let ghost n = self@.len() - 1;
                let v = self.unlink_slot(t, Ghost(n));
                proof {
                    assert(old(self)@.remove(n) =~= old(self)@.drop_last());
                }
                Some(v)
            },
        }
    }

    /// Walks `index` successor links from the head and returns the slot reached.
    fn slot_at(&self, index: usize) -> (r: usize)
        requires
            self.wf(),
            index < self@.len(),
        ensures
            r == self.order@[index as int],
            r < self.size,
    {
        let mut cur = self.head.unwrap();
        let mut i: usize = 0;
        while i < index
            invariant
                self.wf(),
                i <= index < self@.len(),
                cur == self.order@[i as int],
            decreases index - i,
        {
            assert(self.next@[self.order@[i as int] as int] == next_link(self.order@, i as int));
            cur = self.next[cur].unwrap();
            i = i + 1;
        }
        cur
    }

    /// Inserts an element so that it stands at position `index`; the elements from
    /// `index` on move one place towards the tail.
    pub fn insert(&mut self, index: usize, val: T)
        requires
            old(self).wf(),
            index <= old(self)@.len(),
            old(self)@.len() < usize::MAX,
        ensures
            final(self).wf(),
            final(self)@ == old(self)@.insert(index as int, val),
    {
        if index == 0 {
            self.offer_head(val);
            assert(old(self)@.insert(0, val) =~= seq![val] + old(self)@);
            return;
        }
        if index == self.size {
            self.offer_tail(val);
            assert(old(self)@.insert(index as int, val) =~= old(self)@.push(val));
            return;
        }
        let ghost o = self.order@;
        let ghost pos0 = self.pos@;
        let s = self.slot_at(index);
        assert(self.prev@[o[index as int] as int] == prev_link(o, index as int));
        let a = self.prev[s].unwrap();
        let n = self.size;
        self.vals.push(val);
        self.prev.push(Some(a));
        self.next.push(Some(s));
        self.next.set(a, Some(n));
        self.prev.set(s, Some(n));
        self.size = n + 1;
        proof {
            let ix = index as int;
            let o2 = o.insert(ix, n);
            self.order@ = o2;
            self.pos@ = insert_pos(pos0, ix, n);
            assert forall|i: int| 0 <= i <= n implies #[trigger] o2[i] == (if i < ix {
                o[i]
            } else if i == ix {
                n
            } else {
                o[i - 1]
            }) by {}
            lemma_insert_perm(o, pos0, ix, n);
            assert(self.pos@ == insert_pos(pos0, ix, n));
            assert(links_ok(o2, self.prev@, self.next@, self.head, self.tail)) by {
                assert forall|i: int| 0 <= i < o2.len() implies {
                    &&& o2[i] < self.prev@.len()
                    &&& o2[i] < self.next@.len()
                    &&& #[trigger] self.prev@[o2[i] as int] == prev_link(o2, i)
                    &&& self.next@[o2[i] as int] == next_link(o2, i)
                } by {
                    if i < ix {
                        assert(old(self).prev@[o[i] as int] == prev_link(o, i));
                        assert(old(self).next@[o[i] as int] == next_link(o, i));
                        if i == ix - 1 {
                            assert(o[i] == a);
                        } else {
                            assert(o[i] != a);
                            assert(o[i] != s);
                        }
                        if i > 0 {
                            assert(o2[i - 1] == o[i - 1]);
                        }
                        assert(o2[i + 1] == (if i + 1 == ix { n } else { o[i + 1] }));
                    } else if i > ix {
                        assert(old(self).prev@[o[i - 1] as int] == prev_link(o, i - 1));
                        assert(old(self).next@[o[i - 1] as int] == next_link(o, i - 1));
                        if i == ix + 1 {
                            assert(o[i - 1] == s);
                        } else {
                            assert(o[i - 1] != s);
                            assert(o[i - 1] != a);
                        }
                        assert(o2[i - 1] == (if i - 1 == ix { n } else { o[i - 2] }));
                        if i + 1 < o2.len() {
                            assert(o2[i + 1] == o[i]);
                        }
                    } else {
                        assert(o2[i - 1] == a);
                        assert(o2[i + 1] == s);
                    }
                }
                assert(o2[0] == o[0]);
                assert(o2[o2.len() - 1] == o[o.len() - 1]);
            }
            assert(self@ =~= old(self)@.insert(ix, val)) by {
                assert forall|i: int| 0 <= i < o2.len() implies #[trigger] self@[i] == old(self)@.insert(
                    ix,
                    val,
                )[i] by {
                    if i < ix {
                        assert(o[i] < n);
                    } else if i > ix {
                        assert(o[i - 1] < n);
                    }
                }
            }
        }
    }

    /// Removes the element at position `index` and returns it; the elements after it
    /// move one place towards the head.
    pub fn remove(&mut self, index: usize) -> (r: Option<T>)
        requires
            old(self).wf(),
            index < old(self)@.len(),
        ensures
            final(self).wf(),
            r == Some(old(self)@[index as int]),
            final(self)@ == old(self)@.remove(index as int),
    {
        let s = self.slot_at(index);
        let v = self.unlink_slot(s, Ghost(index as int));
        Some(v)
    }

    /// Returns a reference to the element at position `index`.
    pub fn get(&self, index: usize) -> (r: Option<&T>)
        requires
            self.wf(),
            index < self@.len(),
        ensures
            r == Some(&self@[index as int]),
    {
        let s = self.slot_at(index);
        Some(&self.vals[s])
    }

    /// Walking successor links from the head visits the elements in order and
    /// reaches no node after `size` steps; walking predecessor links from the tail
    /// visits them in reverse, so the two walks are exact reverses of each other.
    pub proof fn lemma_traversal(&self)
        requires
            self.wf(),
        ensures
            forall|i: nat|
                i < self@.len() ==> (#[trigger] self.walk_forward(i)) is Some
                    && self.slot_value(self.walk_forward(i)->0) == self@[i as int],
            self.walk_forward(self@.len()) is None,
            forall|i: nat|
                i < self@.len() ==> (#[trigger] self.walk_backward(i)) is Some
                    && self.slot_value(self.walk_backward(i)->0) == self@[self@.len() - 1 - i],
            self.walk_backward(self@.len()) is None,
            forall|i: nat|
                i < self@.len() ==> #[trigger] self.walk_forward(i) == self.walk_backward(
                    (self@.len() - 1 - i) as nat,
                ),
    {
        let o = self.order@;
        let n = o.len();
        assert forall|i: nat| i <= n implies #[trigger] self.walk_forward(i) == (if i < n {
            Some(o[i as int])
        } else {
            None
        }) by {
            self.lemma_walk_forward(i);
        }
        assert forall|i: nat| i <= n implies #[trigger] self.walk_backward(i) == (if i < n {
            Some(o[n - 1 - i])
        } else {
            None
        }) by {
            self.lemma_walk_backward(i);
        }
        assert forall|i: nat| i < n implies #[trigger] self.walk_forward(i) == self.walk_backward(
            (n - 1 - i) as nat,
        ) by {
            assert(self.walk_backward((n - 1 - i) as nat) == Some(o[n - 1 - (n - 1 - i)]));
        }
    }

    proof fn lemma_walk_forward(&self, i: nat)
        requires
            self.wf(),
            i <= self@.len(),
        ensures
            self.walk_forward(i) == (if i < self@.len() {
                Some(self.order@[i as int])
            } else {
                None
            }),
        decreases i,
    {
        if i > 0 {
            self.lemma_walk_forward((i - 1) as nat);
            let k = self.order@[i - 1];
            assert(self.next@[k as int] == next_link(self.order@, i - 1));
        }
    }

    proof fn lemma_walk_backward(&self, i: nat)
        requires
            self.wf(),
            i <= self@.len(),
        ensures
            self.walk_backward(i) == (if i < self@.len() {
                Some(self.order@[self@.len() - 1 - i])
            } else {
                None
            }),
        decreases i,
    {
        if i > 0 {
            self.lemma_walk_backward((i - 1) as nat);
            let n = self@.len() as int;
            let k = self.order@[n - 1 - (i - 1)];
            assert(self.prev@[k as int] == prev_link(self.order@, n - 1 - (i - 1)));
        }
    }

    /// Every arena slot in use holds a node of the list: no node outlives its
    /// removal, so once every element has been removed no slot is left in use.
    pub proof fn lemma_no_leak(&self)
        requires
            self.wf(),
        ensures
            self.live_slots() == self@.len(),
    {
    }
}

} // verus!
