use vstd::prelude::*;

verus! {

type Link<T> = Option<Box<Node<T>>>;

struct Node<T> {
    val: T,
    next: Link<T>,
}

/// The values along a chain of nodes, from the first node on.
spec fn link_view<T>(link: Link<T>) -> Seq<T>
    decreases link,
{
    match link {
        None => Seq::empty(),
        Some(node) => seq![node.val] + link_view(node.next),
    }
}

/// Stack on a singly linked chain of nodes.
///
/// Elements leave in the reverse order of their arrival (last in, first out); adding
/// and removing at the top take O(1).
pub struct Stack<T> {
    head: Link<T>,
}

impl<T> Stack<T> {
    /// The elements from the top of the stack down.
    pub closed spec fn view(&self) -> Seq<T> {
        link_view(self.head)
    }

    /// Creates an empty stack.
    pub fn new() -> (r: Self)
        ensures
            r@ == Seq::<T>::empty(),
    {
        Stack { head: None }
    }

    /// Puts an element on top of the stack.
    pub fn push(&mut self, val: T)
        ensures
            final(self)@ == seq![val] + old(self)@,
    {
        let new_node = Box::new(Node { val, next: self.head.take() });
        self.head = Some(new_node);
    }

    /// Removes the top element and returns it, or returns `None` when the stack is
    /// empty.
    pub fn pop(&mut self) -> (r: Option<T>)
        ensures
            old(self)@.len() == 0 ==> r == None::<T> && final(self)@ == old(self)@,
            old(self)@.len() > 0 ==> r == Some(old(self)@[0]) && final(self)@ == old(
                self,
            )@.drop_first(),
    {
        match self.head.take() {
            Some(h) => {
                let node = *h;
                self.head = node.next;
                proof {
                    assert(old(self)@.drop_first() =~= self@);
                }
                Some(node.val)
            },
            None => None,
        }
    }

    /// Tells whether the stack holds no element.
    pub fn is_empty(&self) -> (r: bool)
        ensures
            r == (self@.len() == 0),
    {
        self.head.is_none()
    }

    /// Returns a reference to the top element, or `None` when the stack is empty.
    pub fn peek(&self) -> (r: Option<&T>)
        ensures
            self@.len() == 0 ==> r == None::<&T>,
            self@.len() > 0 ==> r == Some(&self@[0]),
    {
        match &self.head {
            Some(h) => Some(&h.val),
            None => None,
        }
    }

    /// Returns an iterator over references to the elements, from the top down.
    pub fn iter(&self) -> (r: Iter<'_, T>)
        ensures
            r@ == self@,
    {
        Iter { next: self.head.as_ref() }
    }

    /// Returns an iterator over mutable references to the elements, from the top
    /// down.
    pub fn iter_mut(&mut self) -> (r: IterMut<'_, T>)
        ensures
            r@ == old(self)@,
    {
        IterMut {
            next: match self.head.as_mut() {
                Some(b) => Some(&mut **b),
                None => None,
            },
        }
    }

    /// Turns the stack into an iterator that hands out its elements from the top
    /// down.
    pub fn into_iter(self) -> (r: IntoIter<T>)
        ensures
            r@ == self@,
    {
        IntoIter(self)
    }
}

impl<T> Default for Stack<T> {
    fn default() -> (r: Self)
        ensures
            r@ == Seq::<T>::empty(),
    {
        Self::new()
    }
}

/// Iterator that takes the elements out of a stack, from the top down.
pub struct IntoIter<T>(Stack<T>);

impl<T> IntoIter<T> {
    /// The elements still to come.
    pub closed spec fn view(&self) -> Seq<T> {
        self.0@
    }

    /// Hands out the next element, or `None` once all have been handed out.
    pub fn next(&mut self) -> (r: Option<T>)
        ensures
            old(self)@.len() == 0 ==> r == None::<T> && final(self)@ == old(self)@,
            old(self)@.len() > 0 ==> r == Some(old(self)@[0]) && final(self)@ == old(
                self,
            )@.drop_first(),
    {
        self.0.pop()
    }
}

/// Iterator over mutable references to the elements of a stack, from the top down.
pub struct IterMut<'a, T> {
    next: Option<&'a mut Node<T>>,
}

impl<'a, T> IterMut<'a, T> {
    /// The current values of the elements still to come.
    pub closed spec fn view(&self) -> Seq<T> {
        match self.next {
            None => Seq::empty(),
            Some(node) => link_view(Some(Box::new(*node))),
        }
    }

    /// Hands out a mutable reference to the next element, or `None` once all have
    /// been handed out.
    pub fn next(&mut self) -> (r: Option<&'a mut T>)
        ensures
            old(self)@.len() == 0 ==> r is None && final(self)@ == old(self)@,
            old(self)@.len() > 0 ==> r is Some && *r->0 == old(self)@[0] && final(self)@ == old(
                self,
            )@.drop_first(),
    {
        match self.next.take() {
            Some(node) => {
                let ghost rest = link_view(node.next);
                proof {
                    assert(old(self)@ == seq![node.val] + rest);
                }
                self.next = match node.next.as_mut() {
                    Some(b) => Some(&mut **b),
                    None => None,
                };
                proof {
                    assert(self@ == rest);
                    assert(old(self)@.drop_first() =~= self@);
                }
                Some(&mut node.val)
            },
            None => None,
        }
    }
}

/// Iterator over references to the elements of a stack, from the top down.
pub struct Iter<'a, T> {
    next: Option<&'a Box<Node<T>>>,
}

impl<'a, T> Iter<'a, T> {
    /// The elements still to come.
    pub closed spec fn view(&self) -> Seq<T> {
        match self.next {
            None => Seq::empty(),
            Some(node) => link_view(Some(*node)),
        }
    }

    /// Hands out a reference to the next element, or `None` once all have been
    /// handed out.
    pub fn next(&mut self) -> (r: Option<&'a T>)
        ensures
            old(self)@.len() == 0 ==> r == None::<&T> && final(self)@ == old(self)@,
            old(self)@.len() > 0 ==> r == Some(&old(self)@[0]) && final(self)@ == old(
                self,
            )@.drop_first(),
    {
        match self.next {
            Some(node) => {
                self.next = node.next.as_ref();
                proof {
                    assert(old(self)@ == seq![node.val] + link_view(node.next));
                    assert(self@ == link_view(node.next));
                    assert(old(self)@.drop_first() =~= self@);
                }
                Some(&node.val)
            },
            None => None,
        }
    }
}

} // verus!
