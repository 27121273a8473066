//! A growable LIFO stack backed by a vector.
//!
//! The stack is viewed as the sequence of its elements, bottom first; the
//! top of the stack is the last element of the view.

use vstd::prelude::*;

verus! {

/// A growable stack.
pub struct Stack<T> {
    elements: Vec<T>,
}

impl<T> View for Stack<T> {
    type V = Seq<T>;

    closed spec fn view(&self) -> Seq<T> {
        self.elements@
    }
}

impl<T> Stack<T> {
    /// Creates an empty stack.
    pub fn new() -> (s: Self)
        ensures
            s@ == Seq::<T>::empty(),
    {
        Stack { elements: Vec::new() }
    }

    /// Pushes a value on top of the stack.
    pub fn push(&mut self, value: T)
        ensures
            final(self)@ == old(self)@.push(value),
    {
        self.elements.push(value)
    }

    /// Removes and returns the top of the stack, or `None` when it is empty.
    pub fn pop(&mut self) -> (r: Option<T>)
        ensures
            old(self)@.len() == 0 ==> r.is_none() && final(self)@ == old(self)@,
            old(self)@.len() > 0 ==> (r matches Some(v) && v == old(self)@.last() && final(self)@
                == old(self)@.drop_last()),
    {
        self.elements.pop()
    }

    /// Returns the top of the stack without removing it.
    pub fn peek(&self) -> (r: Option<&T>)
        ensures
            self@.len() == 0 ==> r.is_none(),
            self@.len() > 0 ==> (r matches Some(v) && *v == self@.last()),
    {
        if self.elements.len() == 0 {
            None
        } else {
            Some(&self.elements[self.elements.len() - 1])
        }
    }

    /// The number of stored elements.
    pub fn len(&self) -> (n: usize)
        ensures
            n == self@.len(),
    {
        self.elements.len()
    }

    /// Whether the stack holds no element.
    pub fn is_empty(&self) -> (r: bool)
        ensures
            r == (self@.len() == 0),
    {
        self.elements.len() == 0
    }
}

} // verus!
