//! A fixed-capacity LIFO stack.
//!
//! The capacity `N` is part of the type; pushing onto a full stack is
//! rejected with an error and leaves the stack unchanged.  The stack is
//! viewed as the sequence of its elements, bottom first.

use vstd::prelude::*;

verus! {

/// A stack holding at most `N` elements.
pub struct Stack<T, const N: usize> {
    elements: Vec<T>,
}

impl<T, const N: usize> View for Stack<T, N> {
    type V = Seq<T>;

    closed spec fn view(&self) -> Seq<T> {
        self.elements@
    }
}

impl<T, const N: usize> Stack<T, N> {
    /// The stack's internal invariant: it never holds more than `N`
    /// elements.
    pub closed spec fn well_formed(self) -> bool {
        self.elements@.len() <= N
    }

    /// Creates an empty stack.
    pub fn new() -> (s: Self)
        ensures
            s.well_formed(),
            s@ == Seq::<T>::empty(),
    {
        Stack { elements: Vec::new() }
    }

    /// Whether the stack holds no element.
    pub fn is_empty(&self) -> (r: bool)
        ensures
            r == (self@.len() == 0),
    {
        self.elements.len() == 0
    }

    /// Whether the stack has reached its capacity.
    pub fn is_full(&self) -> (r: bool)
        ensures
            r == (self@.len() >= N),
    {
        self.elements.len() >= N
    }

    /// The number of stored elements.
    pub fn len(&self) -> (n: usize)
        ensures
            n == self@.len(),
    {
        self.elements.len()
    }

    /// The capacity of the stack.
    pub fn capacity(&self) -> (n: usize)
        ensures
            n == N,
    {
        N
    }

    /// Returns the top of the stack without removing it.
    pub fn peek(&self) -> (r: Option<&T>)
        ensures
            self@.len() == 0 ==> r.is_none(),
            self@.len() > 0 ==> (r matches Some(v) && *v == self@.last()),
    {
        if self.elements.len() == 0 {
            return None;
        }
        Some(&self.elements[self.elements.len() - 1])
    }

    /// Pushes a value on top of the stack; a full stack is left unchanged
    /// and an error is returned.
    pub fn push(&mut self, value: T) -> (r: Result<(), &'static str>)
        requires
            old(self).well_formed(),
        ensures
            final(self).well_formed(),
            old(self)@.len() < N ==> r is Ok && final(self)@ == old(self)@.push(value),
            old(self)@.len() >= N ==> r is Err && final(self)@ == old(self)@,
    {
        if self.elements.len() >= N {
            return Err("Stack is full.");
        }
        self.elements.push(value);
        Ok(())
    }

    /// Removes and returns the top of the stack, or `None` when it is empty.
    pub fn pop(&mut self) -> (r: Option<T>)
        requires
            old(self).well_formed(),
        ensures
            final(self).well_formed(),
            old(self)@.len() == 0 ==> r.is_none() && final(self)@ == old(self)@,
            old(self)@.len() > 0 ==> (r matches Some(v) && v == old(self)@.last() && final(self)@
                == old(self)@.drop_last()),
    {
        self.elements.pop()
    }
}

} // verus!
