//! A singly linked stack: elements are pushed and popped at the head.

use vstd::prelude::*;

verus! {

struct Node<T> {
    next: Link<T>,
    data: T,
}

type Link<T> = Option<Box<Node<T>>>;

/// A singly linked list used as a stack; the head is index 0 of the view.
pub struct List<T> {
    head: Link<T>,
}

/// The elements hanging off a link, head first.
spec fn link_view<T>(l: Link<T>) -> Seq<T>
    decreases l,
{
    match l {
        None => Seq::empty(),
        Some(node) => seq![node.data] + link_view(node.next),
    }
}

impl<T> View for List<T> {
    type V = Seq<T>;

    closed spec fn view(&self) -> Seq<T> {
        link_view(self.head)
    }
}

impl<T> List<T> {
    /// Creates an empty list.
    pub fn new() -> (l: List<T>)
        ensures
            l@ == Seq::<T>::empty(),
    {
        List { head: None }
    }

    /// Pushes `value` on top of the stack.
    pub fn push(&mut self, value: T)
        ensures
            final(self)@ == seq![value] + old(self)@,
    {
        let new_node = Box::new(Node { data: value, next: self.head.take() });
        self.head = Some(new_node);
    }

    /// Pops the top of the stack, or `None` when the list is empty.
    pub fn pop(&mut self) -> (r: Option<T>)
        ensures
            old(self)@.len() == 0 ==> r is None && final(self)@ == old(self)@,
            old(self)@.len() > 0 ==> r == Some(old(self)@[0]) && final(self)@ == old(
                self,
            )@.drop_first(),
    {
        match self.head.take() {
            None => None,
            Some(boxed) => {
                let node = *boxed;
                self.head = node.next;
                proof {
                    assert(old(self)@.drop_first() =~= link_view(node.next));
                }
                Some(node.data)
            },
        }
    }

    /// The top of the stack, or `None` when the list is empty.
    pub fn peek(&self) -> (r: Option<&T>)
        ensures
            self@.len() == 0 ==> r is None,
            self@.len() > 0 ==> r == Some(&self@[0]),
    {
        match &self.head {
            None => None,
            Some(node) => Some(&node.data),
        }
    }

    /// Turns the list into a consuming producer that yields the elements top
    /// first.
    pub fn into_iter(self) -> (it: IntoIter<T>)
        ensures
            it@ == self@,
    {
        IntoIter(self)
    }

    /// A borrowing producer that yields references to the elements top first.
    pub fn iter(&self) -> (it: Iter<'_, T>)
        ensures
            it@ == self@,
    {
        Iter { cur: &self.head }
    }
}

/// A consuming producer over a `List`, yielding elements top first.
pub struct IntoIter<T>(List<T>);

impl<T> View for IntoIter<T> {
    type V = Seq<T>;

    closed spec fn view(&self) -> Seq<T> {
        self.0@
    }
}

impl<T> IntoIter<T> {
    /// Yields the next element, or `None` when exhausted.
    pub fn next(&mut self) -> (r: Option<T>)
        ensures
            old(self)@.len() == 0 ==> r is None && final(self)@ == old(self)@,
            old(self)@.len() > 0 ==> r == Some(old(self)@[0]) && final(self)@ == old(
                self,
            )@.drop_first(),
    {
        self.0.pop()
    }
}

/// A borrowing producer over a `List`, yielding references top first.
pub struct Iter<'a, T> {
    cur: &'a Link<T>,
}

impl<'a, T> View for Iter<'a, T> {
    type V = Seq<T>;

    closed spec fn view(&self) -> Seq<T> {
        link_view(*self.cur)
    }
}

impl<'a, T> Iter<'a, T> {
    /// Yields a reference to the next element, or `None` when exhausted.
    pub fn next(&mut self) -> (r: Option<&'a T>)
        ensures
            old(self)@.len() == 0 ==> r is None && final(self)@ == old(self)@,
            old(self)@.len() > 0 ==> r == Some(&old(self)@[0]) && final(self)@ == old(
                self,
            )@.drop_first(),
    {
        match self.cur {
            None => None,
            Some(node) => {
                self.cur = &node.next;
                proof {
                    assert(old(self)@.drop_first() =~= link_view(node.next));
                }
                Some(&node.data)
            },
        }
    }
}

} // verus!
