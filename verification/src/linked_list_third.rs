//! A persistent singly linked list: `append` and `tail` return new lists
//! that share their nodes with the original.

use std::sync::Arc;
use vstd::prelude::*;

verus! {

struct Node<T> {
    next: Link<T>,
    data: T,
}

type Link<T> = Option<Arc<Node<T>>>;

/// An immutable shared list; the head is index 0 of the view.
pub struct List<T> {
    head: Link<T>,
}

/// The elements hanging off a link, head first.
spec fn link_view<T>(l: Link<T>) -> Seq<T>
    decreases l,
{
    match l {
        None => Seq::empty(),
        Some(node) => seq![node.data] + link_view(node.next),
    }
}

impl<T> View for List<T> {
    type V = Seq<T>;

    closed spec fn view(&self) -> Seq<T> {
        link_view(self.head)
    }
}

impl<T> List<T> {
    /// Creates an empty list.
    pub fn new() -> (l: List<T>)
        ensures
            l@ == Seq::<T>::empty(),
    {
        List { head: None }
    }

    /// A new list with `elem` in front of this one; the tail is shared.
    pub fn append(&self, elem: T) -> (l: List<T>)
        ensures
            l@ == seq![elem] + self@,
    {
        let next = match &self.head {
            None => None,
            Some(node) => Some(node.clone()),
        };
        List { head: Some(Arc::new(Node { data: elem, next })) }
    }

    /// The list without its head element, shared with this one; the empty
    /// list's tail is empty.
    pub fn tail(&self) -> (l: List<T>)
        ensures
            self@.len() == 0 ==> l@ == Seq::<T>::empty(),
            self@.len() > 0 ==> l@ == self@.drop_first(),
    {
        match &self.head {
            None => List { head: None },
            Some(node) => {
                let next = match &node.next {
                    None => None,
                    Some(next_node) => Some(next_node.clone()),
                };
                proof {
                    assert(self@.drop_first() =~= link_view(node.next));
                }
                List { head: next }
            },
        }
    }

    /// The head element, or `None` when the list is empty.
    pub fn head(&self) -> (r: Option<&T>)
        ensures
            self@.len() == 0 ==> r is None,
            self@.len() > 0 ==> r == Some(&self@[0]),
    {
        match &self.head {
            None => None,
            Some(node) => Some(&node.data),
        }
    }

    /// A borrowing producer that yields references head first.
    pub fn iter(&self) -> (it: Iter<'_, T>)
        ensures
            it@ == self@,
    {
        Iter { ptr: &self.head }
    }
}

/// A borrowing producer over a `List`, yielding references head first.
pub struct Iter<'a, T> {
    ptr: &'a Link<T>,
}

impl<'a, T> View for Iter<'a, T> {
    type V = Seq<T>;

    closed spec fn view(&self) -> Seq<T> {
        link_view(*self.ptr)
    }
}

impl<'a, T> Iter<'a, T> {
    /// Yields a reference to the next element, or `None` when exhausted.
    pub fn next(&mut self) -> (r: Option<&'a T>)
        ensures
            old(self)@.len() == 0 ==> r is None && final(self)@ == old(self)@,
            old(self)@.len() > 0 ==> r == Some(&old(self)@[0]) && final(self)@ == old(
                self,
            )@.drop_first(),
    {
        match self.ptr {
            None => None,
            Some(node) => {
                self.ptr = &node.next;
                proof {
                    assert(old(self)@.drop_first() =~= link_view(node.next));
                }
                Some(&node.data)
            },
        }
    }
}

} // verus!
