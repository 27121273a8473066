//! A singly linked list of `u64` values with search by loop or recursion.
//!
//! The list is viewed as the sequence of its values, head first.  Values
//! can be pushed at either end; `find` walks the list and returns the
//! first stored value equal to the one sought.

use vstd::prelude::*;

verus! {

struct Node {
    val: u64,
    next: Option<Box<Node>>,
}

/// A singly linked list.
pub struct LinkedList {
    head: Option<Box<Node>>,
}

/// Selects how `find_with` walks the list.
pub enum SearchType {
    Loop,
    Recursive,
}

/// The sequence of values stored in a chain of nodes, head first.
spec fn link_seq(link: Option<Box<Node>>) -> Seq<u64>
    decreases link,
{
    match link {
        None => Seq::empty(),
        Some(node) => seq![node.val] + link_seq(node.next),
    }
}

/// A non-empty sequence contains a value exactly when its first element is
/// that value or the rest contains it.
proof fn lemma_cons_contains(v: u64, rest: Seq<u64>, x: u64)
    ensures
        (seq![v] + rest).contains(x) <==> (x == v || rest.contains(x)),
{
    let s = seq![v] + rest;
    if x == v {
        assert(s[0] == x);
    }
    if rest.contains(x) {
        let i = choose|i: int| 0 <= i < rest.len() && rest[i] == x;
        assert(s[i + 1] == x);
    }
    if s.contains(x) && x != v {
        let i = choose|i: int| 0 <= i < s.len() && s[i] == x;
        assert(rest[i - 1] == x);
    }
}

impl View for LinkedList {
    type V = Seq<u64>;

    closed spec fn view(&self) -> Seq<u64> {
        link_seq(self.head)
    }
}

impl LinkedList {
    /// Creates an empty list.
    pub fn new() -> (l: Self)
        ensures
            l@ == Seq::<u64>::empty(),
    {
        LinkedList { head: None }
    }

    /// Pushes a value at the front of the list.
    pub fn push_left(&mut self, val: u64)
        ensures
            final(self)@ == seq![val] + old(self)@,
    {
        let mut head = None;
        std::mem::swap(&mut head, &mut self.head);
        self.head = Some(Box::new(Node { val, next: head }));
    }

    /// Appends a value at the back of the chain of nodes.
    fn push_back_link(link: &mut Option<Box<Node>>, val: u64)
        ensures
            link_seq(*final(link)) == link_seq(*old(link)).push(val),
        decreases *old(link),
    {
        match link.take() {
            None => {
                *link = Some(Box::new(Node { val, next: None }));
                proof {
                    assert(link_seq(*link) =~= link_seq(*old(link)).push(val));
                }
            },
            Some(mut node) => {
                Self::push_back_link(&mut node.next, val);
                *link = Some(node);
                proof {
                    assert(link_seq(*link) =~= link_seq(*old(link)).push(val));
                }
            },
        }
    }

    /// Appends a value at the end of the list.
    pub fn push_right(&mut self, val: u64)
        ensures
            final(self)@ == old(self)@.push(val),
    {
        Self::push_back_link(&mut self.head, val);
    }

    /// Finds the first stored value equal to `val`, walking with a loop.
    pub fn find(&self, val: &u64) -> (r: Option<&u64>)
        ensures
            r.is_some() <==> self@.contains(*val),
            r matches Some(v) ==> *v == *val,
    {
        self.find_loop(val)
    }

    /// Finds the first stored value equal to `val`, walking the list in the
    /// chosen way.
    pub fn find_with(&self, val: &u64, search_type: SearchType) -> (r: Option<&u64>)
        ensures
            r.is_some() <==> self@.contains(*val),
            r matches Some(v) ==> *v == *val,
    {
        match search_type {
            SearchType::Loop => self.find_loop(val),
            SearchType::Recursive => Self::find_recursive(&self.head, val),
        }
    }

    fn find_loop<'a>(&'a self, val: &u64) -> (r: Option<&'a u64>)
        ensures
            r.is_some() <==> self@.contains(*val),
            r matches Some(v) ==> *v == *val,
    {
        let mut current: &'a Option<Box<Node>> = &self.head;
        loop
            invariant
                self@.contains(*val) <==> link_seq(*current).contains(*val),
            decreases link_seq(*current).len(),
        {
            match current {
                None => {
                    proof {
                        assert(link_seq(*current) =~= Seq::empty());
                    }
                    return None;
                },
                Some(node) => {
                    if node.val == *val {
                        proof {
                            assert(link_seq(*current)[0] == *val);
                        }
                        return Some(&node.val);
                    }
                    proof {
                        lemma_cons_contains(node.val, link_seq(node.next), *val);
                    }
                    current = &node.next;
                },
            }
        }
    }

    fn find_recursive<'a>(link: &'a Option<Box<Node>>, val: &u64) -> (r: Option<&'a u64>)
        ensures
            r.is_some() <==> link_seq(*link).contains(*val),
            r matches Some(v) ==> *v == *val,
        decreases *link,
    {
        match link {
            None => {
                proof {
                    assert(link_seq(*link) =~= Seq::empty());
                }
                None
            },
            Some(node) => {
                proof {
                    lemma_cons_contains(node.val, link_seq(node.next), *val);
                }
                if node.val == *val {
                    proof {
                        assert(link_seq(*link)[0] == *val);
                    }
                    Some(&node.val)
                } else {
                    Self::find_recursive(&node.next, val)
                }
            },
        }
    }

    /// Whether the list stores a value equal to `val`.
    pub fn contains(&self, val: &u64) -> (r: bool)
        ensures
            r == self@.contains(*val),
    {
        self.find(val).is_some()
    }

    /// Whether the list stores a value equal to `val`, walking the list in
    /// the chosen way.
    pub fn contains_with(&self, val: &u64, search_type: SearchType) -> (r: bool)
        ensures
            r == self@.contains(*val),
    {
        self.find_with(val, search_type).is_some()
    }
}

} // verus!
