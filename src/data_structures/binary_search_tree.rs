use vstd::prelude::*;
use core::cmp::Ordering;

verus! {

type Link<T> = Option<Box<Node<T>>>;

struct Node<T> {
    val: T,
    left: Link<T>,
    right: Link<T>,
}

/// The values held in a subtree.
spec fn link_set(link: Link<i32>) -> Set<i32>
    decreases link,
{
    match link {
        None => Set::empty(),
        Some(node) => link_set(node.left).union(link_set(node.right)).insert(node.val),
    }
}

/// Number of levels of a subtree.
spec fn link_height(link: Link<i32>) -> nat
    decreases link,
{
    match link {
        None => 0,
        Some(node) => {
            let l = link_height(node.left);
            let r = link_height(node.right);
            1 + if l > r { l } else { r }
        },
    }
}

/// Search-tree order, with greater values to the left: every value in a left subtree
/// is greater than its node's, every value in a right subtree is no greater.
spec fn link_ordered(link: Link<i32>) -> bool
    decreases link,
{
    match link {
        None => true,
        Some(node) => {
            &&& link_ordered(node.left)
            &&& link_ordered(node.right)
            &&& forall|v: i32| #[trigger] link_set(node.left).contains(v) ==> v > node.val
            &&& forall|v: i32| #[trigger] link_set(node.right).contains(v) ==> v <= node.val
        },
    }
}

/// `m` is the greatest value of `s`.
pub open spec fn is_max(s: Set<i32>, m: i32) -> bool {
    s.contains(m) && forall|v: i32| #[trigger] s.contains(v) ==> v <= m
}

/// `m` is the smallest value of `s`.
pub open spec fn is_min(s: Set<i32>, m: i32) -> bool {
    s.contains(m) && forall|v: i32| #[trigger] s.contains(v) ==> m <= v
}

/// `r` is the greatest value of `s` that is no greater than `x`, or `None` when
/// there is none.
pub open spec fn is_floor(s: Set<i32>, x: i32, r: Option<i32>) -> bool {
    match r {
        None => forall|v: i32| #[trigger] s.contains(v) ==> v > x,
        Some(f) => s.contains(f) && f <= x && forall|v: i32| #[trigger] s.contains(v) && v <= x ==> v <= f,
    }
}

/// `r` is the smallest value of `s` that is no smaller than `x`, or `None` when
/// there is none.
pub open spec fn is_ceil(s: Set<i32>, x: i32, r: Option<i32>) -> bool {
    match r {
        None => forall|v: i32| #[trigger] s.contains(v) ==> v < x,
        Some(c) => s.contains(c) && c >= x && forall|v: i32| #[trigger] s.contains(v) && v >= x ==> c <= v,
    }
}

/// The value behind an optional reference.
pub open spec fn deref_opt(r: Option<&i32>) -> Option<i32> {
    match r {
        None => None,
        Some(v) => Some(*v),
    }
}

/// One level of the definitions of the values and of the order of a subtree.
proof fn lemma_unfold(n: Node<i32>)
    ensures
        link_set(Some(Box::new(n))) == link_set(n.left).union(link_set(n.right)).insert(n.val),
        link_ordered(Some(Box::new(n))) ==> {
            &&& link_ordered(n.left)
            &&& link_ordered(n.right)
            &&& forall|v: i32| #[trigger] link_set(n.left).contains(v) ==> v > n.val
            &&& forall|v: i32| #[trigger] link_set(n.right).contains(v) ==> v <= n.val
        },
        n.left is None ==> link_set(n.left) == Set::<i32>::empty(),
        n.right is None ==> link_set(n.right) == Set::<i32>::empty(),
{
}

impl Node<i32> {
    fn new(val: i32) -> (r: Self)
        ensures
            link_set(Some(Box::new(r))) == set![val],
            link_ordered(Some(Box::new(r))),
    {
        let r = Self { val, left: None, right: None };
        proof {
            reveal_with_fuel(link_set, 2);
            reveal_with_fuel(link_ordered, 2);
            assert(link_set(Some(Box::new(r))) =~= set![val]);
        }
        r
    }

    fn insert(&mut self, val: i32)
        requires
            link_ordered(Some(Box::new(*old(self)))),
        ensures
            link_ordered(Some(Box::new(*final(self)))),
            link_set(Some(Box::new(*final(self)))) == link_set(Some(Box::new(*old(self)))).insert(val),
        decreases link_height(Some(Box::new(*old(self)))),
    {
        if self.val < val {
            match &mut self.left {
                Some(node) => {
                    node.insert(val);
                },
                None => {
                    self.left = Some(Box::new(Node::new(val)));
                },
            }
        } else {
            match &mut self.right {
                Some(node) => {
                    node.insert(val);
                },
                None => {
                    self.right = Some(Box::new(Node::new(val)));
                },
            }
        }
        proof {
            assert(self.val == old(self).val);
            if old(self).val < val {
                assert(self.right == old(self).right);
                assert(link_set(self.left) =~= link_set(old(self).left).insert(val));
            } else {
                assert(self.left == old(self).left);
                assert(link_set(self.right) =~= link_set(old(self).right).insert(val));
            }
            assert(link_set(Some(Box::new(*self))) =~= link_set(Some(Box::new(*old(self)))).insert(val));
        }
    }

    fn search(&self, val: &i32) -> (r: bool)
        requires
            link_ordered(Some(Box::new(*self))),
        ensures
            r == link_set(Some(Box::new(*self))).contains(*val),
        decreases link_height(Some(Box::new(*self))),
    {
        proof {
            lemma_unfold(*self);
        }
        if self.val == *val {
            return true;
        }
        let target = if self.val < *val {
            &self.left
        } else {
            &self.right
        };
        match target {
            None => false,
            Some(node) => node.search(val),
        }
    }

    fn max(&self) -> (r: Option<&i32>)
        requires
            link_ordered(Some(Box::new(*self))),
        ensures
            r is Some && is_max(link_set(Some(Box::new(*self))), *r->0),
        decreases link_height(Some(Box::new(*self))),
    {
        proof {
            lemma_unfold(*self);
        }
        match &self.left {
            None => Some(&self.val),
            Some(left_node) => left_node.max(),
        }
    }

    fn min(&self) -> (r: Option<&i32>)
        requires
            link_ordered(Some(Box::new(*self))),
        ensures
            r is Some && is_min(link_set(Some(Box::new(*self))), *r->0),
        decreases link_height(Some(Box::new(*self))),
    {
        proof {
            lemma_unfold(*self);
        }
        match &self.right {
            None => Some(&self.val),
            Some(right_node) => right_node.min(),
        }
    }

    fn floor(&self, val: &i32) -> (r: Option<&i32>)
        requires
            link_ordered(Some(Box::new(*self))),
        ensures
            is_floor(link_set(Some(Box::new(*self))), *val, deref_opt(r)),
        decreases link_height(Some(Box::new(*self))),
    {
        proof {
            lemma_unfold(*self);
        }
        match self.val.partial_cmp(val) {
            Some(Ordering::Greater) => {
                match &self.right {
                    None => None,
                    Some(right_node) => right_node.floor(val),
                }
            },
            Some(Ordering::Less) => {
                match &self.left {
                    None => Some(&self.val),
                    Some(left_node) => {
                        let floor_node = left_node.floor(val);
                        match floor_node {
                            None => Some(&self.val),
                            Some(_) => floor_node,
                        }
                    },
                }
            },
            Some(Ordering::Equal) => Some(&self.val),
            None => None,
        }
    }

    fn ceil(&self, val: &i32) -> (r: Option<&i32>)
        requires
            link_ordered(Some(Box::new(*self))),
        ensures
            is_ceil(link_set(Some(Box::new(*self))), *val, deref_opt(r)),
        decreases link_height(Some(Box::new(*self))),
    {
        proof {
            lemma_unfold(*self);
        }
        match self.val.partial_cmp(val) {
            Some(Ordering::Greater) => {
                match &self.right {
                    None => Some(&self.val),
                    Some(right_node) => {
                        let ceil_node = right_node.ceil(val);
                        match ceil_node {
                            Some(_) => ceil_node,
                            None => Some(&self.val),
                        }
                    },
                }
            },
            Some(Ordering::Less) => {
                match &self.left {
                    None => None,
                    Some(left_node) => left_node.ceil(val),
                }
            },
            Some(Ordering::Equal) => Some(&self.val),
            None => None,
        }
    }
}

/// Binary search tree; values greater than a node's go to its left.
pub struct BinarySearchTree<T> {
    root: Link<T>,
}

impl BinarySearchTree<i32> {
    /// The values in the tree.
    pub closed spec fn view(&self) -> Set<i32> {
        link_set(self.root)
    }

    /// The tree is in search order.
    pub closed spec fn wf(&self) -> bool {
        link_ordered(self.root)
    }

    /// Creates an empty tree.
    pub fn new() -> (r: Self)
        ensures
            r.wf(),
            r@ == Set::<i32>::empty(),
    {
        Self { root: None }
    }

    /// Adds a value to the tree.
    pub fn insert(&mut self, val: i32)
        requires
            old(self).wf(),
        ensures
            final(self).wf(),
            final(self)@ == old(self)@.insert(val),
    {
        match &mut self.root {
            None => {
                self.root = Some(Box::new(Node::new(val)));
                proof {
                    assert(self@ =~= old(self)@.insert(val));
                }
            },
            Some(node) => {
                node.insert(val);
            },
        }
    }

    /// Tells whether the tree holds `val`.
    pub fn search(&self, val: &i32) -> (r: bool)
        requires
            self.wf(),
        ensures
            r == self@.contains(*val),
    {
        match self.root {
            None => false,
            Some(ref node) => node.search(val),
        }
    }

    /// Returns the greatest value, or `None` when the tree is empty.
    pub fn max(&self) -> (r: Option<&i32>)
        requires
            self.wf(),
        ensures
            self@.is_empty() <==> r is None,
            r is Some ==> is_max(self@, *r->0),
    {
        match &self.root {
            None => None,
            Some(node) => node.max(),
        }
    }

    /// Returns the smallest value, or `None` when the tree is empty.
    pub fn min(&self) -> (r: Option<&i32>)
        requires
            self.wf(),
        ensures
            self@.is_empty() <==> r is None,
            r is Some ==> is_min(self@, *r->0),
    {
        match &self.root {
            None => None,
            Some(node) => node.min(),
        }
    }

    /// Returns the greatest value no greater than `val`, or `None` when there is none.
    pub fn floor(&self, val: &i32) -> (r: Option<&i32>)
        requires
            self.wf(),
        ensures
            is_floor(self@, *val, deref_opt(r)),
    {
        match &self.root {
            None => None,
            Some(node) => node.floor(val),
        }
    }

    /// Returns the smallest value no smaller than `val`, or `None` when there is none.
    pub fn ceil(&self, val: &i32) -> (r: Option<&i32>)
        requires
            self.wf(),
        ensures
            is_ceil(self@, *val, deref_opt(r)),
    {
        match &self.root {
            None => None,
            Some(node) => node.ceil(val),
        }
    }
}


} // verus!
