//! A singly linked FIFO list: `push` appends at the tail, `pop` takes the
//! head.

use vstd::prelude::*;

verus! {

struct Node<T> {
    next: Link<T>,
    data: T,
}

type Link<T> = Option<Box<Node<T>>>;

/// A FIFO list; the front is index 0 of the view.
pub struct List<T> {
    head: Link<T>,
}

/// The elements hanging off a link, front first.
spec fn link_view<T>(l: Link<T>) -> Seq<T>
    decreases l,
{
    match l {
        None => Seq::empty(),
        Some(node) => seq![node.data] + link_view(node.next),
    }
}

/// Appends `elem` at the end of the chain.
fn push_back_link<T>(link: &mut Link<T>, elem: T)
    ensures
        link_view(*final(link)) == link_view(*old(link)).push(elem),
    decreases link_view(*link).len(),
{
    match link {
        None => {
            *link = Some(Box::new(Node { data: elem, next: None }));
            proof {
                assert(link_view(*link) =~= link_view(*old(link)).push(elem));
            }
        },
        Some(node) => {
            push_back_link(&mut node.next, elem);
            proof {
                assert(link_view(*link) =~= link_view(*old(link)).push(elem));
            }
        },
    }
}

impl<T> View for List<T> {
    type V = Seq<T>;

    closed spec fn view(&self) -> Seq<T> {
        link_view(self.head)
    }
}

impl<T> List<T> {
    /// Creates an empty list.
    pub fn new() -> (l: List<T>)
        ensures
            l@ == Seq::<T>::empty(),
    {
        List { head: None }
    }

    /// Appends `elem` at the back of the list.
    pub fn push(&mut self, elem: T)
        ensures
            final(self)@ == old(self)@.push(elem),
    {
        push_back_link(&mut self.head, elem);
    }

    /// Removes and returns the front of the list, or `None` when empty.
    pub fn pop(&mut self) -> (r: Option<T>)
        ensures
            old(self)@.len() == 0 ==> r is None && final(self)@ == old(self)@,
            old(self)@.len() > 0 ==> r == Some(old(self)@[0]) && final(self)@ == old(
                self,
            )@.drop_first(),
    {
        match self.head.take() {
            None => None,
            Some(boxed) => {
                let node = *boxed;
                self.head = node.next;
                proof {
                    assert(old(self)@.drop_first() =~= link_view(node.next));
                }
                Some(node.data)
            },
        }
    }

    /// The front of the list, or `None` when empty.
    pub fn peek(&self) -> (r: Option<&T>)
        ensures
            self@.len() == 0 ==> r is None,
            self@.len() > 0 ==> r == Some(&self@[0]),
    {
        match &self.head {
            None => None,
            Some(node) => Some(&node.data),
        }
    }

    /// A mutable borrow of the front of the list, or `None` when empty.
    pub fn peek_mut(&mut self) -> (r: Option<&mut T>)
        ensures
            old(self)@.len() == 0 ==> r is None && final(self)@ == old(self)@,
            old(self)@.len() > 0 ==> r is Some && *r.unwrap() == old(self)@[0] && final(self)@
                == old(self)@.update(0, *final(r.unwrap())),
    {
        match &mut self.head {
            None => None,
            Some(node) => {
                proof {
                    assert(old(self)@.update(0, old(self)@[0]) =~= old(self)@);
                }
                Some(&mut node.data)
            },
        }
    }

    /// Turns the list into a consuming producer that yields front first.
    pub fn into_iter(self) -> (it: IntoIter<T>)
        ensures
            it@ == self@,
    {
        IntoIter(self)
    }

    /// A borrowing producer that yields references front first.
    pub fn iter(&self) -> (it: Iter<'_, T>)
        ensures
            it@ == self@,
    {
        Iter { current: &self.head }
    }
}

/// A consuming producer over a `List`, yielding elements front first.
pub struct IntoIter<T>(List<T>);

impl<T> View for IntoIter<T> {
    type V = Seq<T>;

    closed spec fn view(&self) -> Seq<T> {
        self.0@
    }
}

impl<T> IntoIter<T> {
    /// Yields the next element, or `None` when exhausted.
    pub fn next(&mut self) -> (r: Option<T>)
        ensures
            old(self)@.len() == 0 ==> r is None && final(self)@ == old(self)@,
            old(self)@.len() > 0 ==> r == Some(old(self)@[0]) && final(self)@ == old(
                self,
            )@.drop_first(),
    {
        self.0.pop()
    }
}

/// A borrowing producer over a `List`, yielding references front first.
pub struct Iter<'a, T> {
    current: &'a Link<T>,
}

impl<'a, T> View for Iter<'a, T> {
    type V = Seq<T>;

    closed spec fn view(&self) -> Seq<T> {
        link_view(*self.current)
    }
}

impl<'a, T> Iter<'a, T> {
    /// Yields a reference to the next element, or `None` when exhausted.
    pub fn next(&mut self) -> (r: Option<&'a T>)
        ensures
            old(self)@.len() == 0 ==> r is None && final(self)@ == old(self)@,
            old(self)@.len() > 0 ==> r == Some(&old(self)@[0]) && final(self)@ == old(
                self,
            )@.drop_first(),
    {
        match self.current {
            None => None,
            Some(node) => {
                self.current = &node.next;
                proof {
                    assert(old(self)@.drop_first() =~= link_view(node.next));
                }
                Some(&node.data)
            },
        }
    }
}

} // verus!
