//! A FIFO queue over a singly linked list.
//!
//! The queue is viewed as the sequence of its elements, front first.
//! Enqueueing appends at the back, dequeueing removes the front, and a
//! length counter tracks the number of stored elements.

use vstd::prelude::*;

verus! {

struct Node<T> {
    val: T,
    next: Option<Box<Node<T>>>,
}

/// A singly linked FIFO queue.
pub struct Queue<T> {
    head: Option<Box<Node<T>>>,
    len: usize,
}

/// The sequence of values stored in a chain of nodes, front first.
spec fn link_seq<T>(link: Option<Box<Node<T>>>) -> Seq<T>
    decreases link,
{
    match link {
        None => Seq::empty(),
        Some(node) => seq![node.val] + link_seq(node.next),
    }
}

impl<T> View for Queue<T> {
    type V = Seq<T>;

    closed spec fn view(&self) -> Seq<T> {
        link_seq(self.head)
    }
}

impl<T> Queue<T> {
    /// The queue's internal invariant: the length counter matches the list.
    pub closed spec fn well_formed(self) -> bool {
        self.len == link_seq(self.head).len()
    }

    /// Creates an empty queue.
    pub fn new() -> (q: Self)
        ensures
            q.well_formed(),
            q@ == Seq::<T>::empty(),
    {
        Queue { head: None, len: 0 }
    }

    /// Whether the queue holds no element.
    pub fn is_empty(&self) -> (r: bool)
        requires
            self.well_formed(),
        ensures
            r == (self@.len() == 0),
    {
        self.len == 0
    }

    /// The number of stored elements.
    pub fn len(&self) -> (n: usize)
        requires
            self.well_formed(),
        ensures
            n == self@.len(),
    {
        self.len
    }

    /// Returns the front of the queue without removing it.
    pub fn peek(&self) -> (r: Option<&T>)
        ensures
            self@.len() == 0 ==> r.is_none(),
            self@.len() > 0 ==> (r matches Some(v) && *v == self@[0]),
    {
        match &self.head {
            None => None,
            Some(node) => Some(&node.val),
        }
    }

    /// Appends a value at the back of the chain of nodes.
    fn push_back_link(link: &mut Option<Box<Node<T>>>, val: T)
        ensures
            link_seq(*final(link)) == link_seq(*old(link)).push(val),
        decreases *old(link),
    {
        match link.take() {
            None => {
                *link = Some(Box::new(Node { val, next: None }));
                proof {
                    assert(link_seq(*link) =~= link_seq(*old(link)).push(val));
                }
            },
            Some(mut node) => {
                Self::push_back_link(&mut node.next, val);
                *link = Some(node);
                proof {
                    assert(link_seq(*link) =~= link_seq(*old(link)).push(val));
                }
            },
        }
    }

    /// Appends a value at the back of the queue.
    ///
    /// The length bound is a machine limit: the counter must fit in a
    /// `usize` after the call.
    pub fn enqueue(&mut self, val: T)
        requires
            old(self).well_formed(),
            old(self)@.len() < usize::MAX,
        ensures
            final(self).well_formed(),
            final(self)@ == old(self)@.push(val),
    {
        Self::push_back_link(&mut self.head, val);
        self.len = self.len + 1;
    }

    /// Removes and returns the front of the queue, or `None` when it is
    /// empty.
    pub fn dequeue(&mut self) -> (r: Option<T>)
        requires
            old(self).well_formed(),
        ensures
            final(self).well_formed(),
            old(self)@.len() == 0 ==> r.is_none() && *final(self) == *old(self),
            old(self)@.len() > 0 ==> (r matches Some(v) && v == old(self)@[0] && final(self)@
                == old(self)@.drop_first()),
    {
        match self.head.take() {
            None => None,
            Some(node) => {
                self.head = node.next;
                self.len = self.len - 1;
                proof {
                    assert(self@ =~= old(self)@.drop_first());
                }
                Some(node.val)
            },
        }
    }
}

} // verus!
