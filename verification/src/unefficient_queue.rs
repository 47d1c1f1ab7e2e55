//! A naive FIFO queue over a singly linked list: enqueue walks to the tail,
//! dequeue takes the head.

use vstd::prelude::*;

verus! {

struct Node<T> {
    data: T,
    next: Link<T>,
}

type Link<T> = Option<Box<Node<T>>>;

/// A FIFO queue; the front is index 0 of the view.
pub struct Queue<T> {
    head: Link<T>,
}

/// The elements hanging off a link, front first.
spec fn link_view<T>(l: Link<T>) -> Seq<T>
    decreases l,
{
    match l {
        None => Seq::empty(),
        Some(node) => seq![node.data] + link_view(node.next),
    }
}

/// Appends `t` at the end of the chain.
fn push_back_link<T>(link: &mut Link<T>, t: T)
    ensures
        link_view(*final(link)) == link_view(*old(link)).push(t),
    decreases link_view(*link).len(),
{
    match link {
        None => {
            *link = Some(Box::new(Node { data: t, next: None }));
            proof {
                assert(link_view(*link) =~= link_view(*old(link)).push(t));
            }
        },
        Some(node) => {
            push_back_link(&mut node.next, t);
            proof {
                assert(link_view(*link) =~= link_view(*old(link)).push(t));
            }
        },
    }
}

impl<T> View for Queue<T> {
    type V = Seq<T>;

    closed spec fn view(&self) -> Seq<T> {
        link_view(self.head)
    }
}

impl<T> Queue<T> {
    /// Creates an empty queue.
    pub fn new() -> (q: Queue<T>)
        ensures
            q@ == Seq::<T>::empty(),
    {
        Queue { head: None }
    }

    /// Appends `t` at the back of the queue.
    pub fn enqueue(&mut self, t: T)
        ensures
            final(self)@ == old(self)@.push(t),
    {
        push_back_link(&mut self.head, t);
    }

    /// Removes and returns the front of the queue, or `None` when empty.
    pub fn dequeue(&mut self) -> (r: Option<T>)
        ensures
            old(self)@.len() == 0 ==> r is None && final(self)@ == old(self)@,
            old(self)@.len() > 0 ==> r == Some(old(self)@[0]) && final(self)@ == old(
                self,
            )@.drop_first(),
    {
        match self.head.take() {
            None => None,
            Some(boxed) => {
                let node = *boxed;
                self.head = node.next;
                proof {
                    assert(old(self)@.drop_first() =~= link_view(node.next));
                }
                Some(node.data)
            },
        }
    }

    /// The front of the queue, or `None` when empty.
    pub fn peek(&self) -> (r: Option<&T>)
        ensures
            self@.len() == 0 ==> r is None,
            self@.len() > 0 ==> r == Some(&self@[0]),
    {
        match &self.head {
            None => None,
            Some(node) => Some(&node.data),
        }
    }

    /// Turns the queue into a consuming producer that yields front first.
    pub fn into_iter(self) -> (it: IntoIter<T>)
        ensures
            it@ == self@,
    {
        IntoIter(self)
    }

    /// A borrowing producer that yields references front first.
    pub fn iter(&self) -> (it: Iter<'_, T>)
        ensures
            it@ == self@,
    {
        Iter { next: &self.head }
    }
}

/// A consuming producer over a `Queue`, yielding elements front first.
pub struct IntoIter<T>(Queue<T>);

impl<T> View for IntoIter<T> {
    type V = Seq<T>;

    closed spec fn view(&self) -> Seq<T> {
        self.0@
    }
}

impl<T> IntoIter<T> {
    /// Yields the next element, or `None` when exhausted.
    pub fn next(&mut self) -> (r: Option<T>)
        ensures
            old(self)@.len() == 0 ==> r is None && final(self)@ == old(self)@,
            old(self)@.len() > 0 ==> r == Some(old(self)@[0]) && final(self)@ == old(
                self,
            )@.drop_first(),
    {
        self.0.dequeue()
    }
}

/// A borrowing producer over a `Queue`, yielding references front first.
pub struct Iter<'a, T> {
    next: &'a Link<T>,
}

impl<'a, T> View for Iter<'a, T> {
    type V = Seq<T>;

    closed spec fn view(&self) -> Seq<T> {
        link_view(*self.next)
    }
}

impl<'a, T> Iter<'a, T> {
    /// Yields a reference to the next element, or `None` when exhausted.
    pub fn next(&mut self) -> (r: Option<&'a T>)
        ensures
            old(self)@.len() == 0 ==> r is None && final(self)@ == old(self)@,
            old(self)@.len() > 0 ==> r == Some(&old(self)@[0]) && final(self)@ == old(
                self,
            )@.drop_first(),
    {
        match self.next {
            None => None,
            Some(node) => {
                self.next = &node.next;
                proof {
                    assert(old(self)@.drop_first() =~= link_view(node.next));
                }
                Some(&node.data)
            },
        }
    }
}

} // verus!
