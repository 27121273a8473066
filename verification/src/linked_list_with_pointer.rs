//! A singly linked list of `u64` values with an iterator and deletion.
//!
//! The list is viewed as the sequence of its values, head first.  An
//! iterator walks the list lazily; `delete` removes the first occurrence
//! of a value and reports an absent value with an error.

use vstd::prelude::*;

verus! {

struct Node {
    val: u64,
    next: Option<Box<Node>>,
}

/// A singly linked list with an iterator.
pub struct LinkedList {
    head: Option<Box<Node>>,
}

/// The error returned when a value to delete is not in the list.
#[derive(Debug, PartialEq, Eq, Structural)]
pub enum DeleteError {
    NotFound,
}

/// The sequence of values stored in a chain of nodes, head first.
spec fn link_seq(link: Option<Box<Node>>) -> Seq<u64>
    decreases link,
{
    match link {
        None => Seq::empty(),
        Some(node) => seq![node.val] + link_seq(node.next),
    }
}

/// The chain of nodes storing a given sequence of values.
spec fn links_of(s: Seq<u64>) -> Option<Box<Node>>
    decreases s.len(),
{
    if s.len() == 0 {
        None
    } else {
        Some(Box::new(Node { val: s[0], next: links_of(s.drop_first()) }))
    }
}

/// A sequence with the first occurrence of `v` removed (the sequence
/// itself when `v` does not occur).
pub open spec fn remove_first(s: Seq<u64>, v: u64) -> Seq<u64>
    decreases s.len(),
{
    if s.len() == 0 {
        s
    } else if s[0] == v {
        s.drop_first()
    } else {
        seq![s[0]] + remove_first(s.drop_first(), v)
    }
}

/// A non-empty sequence contains a value exactly when its first element is
/// that value or the rest contains it.
proof fn lemma_cons_contains(v: u64, rest: Seq<u64>, x: u64)
    ensures
        (seq![v] + rest).contains(x) <==> (x == v || rest.contains(x)),
{
    let s = seq![v] + rest;
    if x == v {
        assert(s[0] == x);
    }
    if rest.contains(x) {
        let i = choose|i: int| 0 <= i < rest.len() && rest[i] == x;
        assert(s[i + 1] == x);
    }
    if s.contains(x) && x != v {
        let i = choose|i: int| 0 <= i < s.len() && s[i] == x;
        assert(rest[i - 1] == x);
    }
}

/// A lazy iterator over a [`LinkedList`], holding the node it will yield
/// next.
pub struct Iter<'a> {
    next: Option<&'a Node>,
}

/// The chain a borrowed link refers to, as an owned optional node.
spec fn deref_link(link: Option<&Node>) -> Option<Box<Node>> {
    match link {
        None => None,
        Some(node) => Some(Box::new(*node)),
    }
}

impl<'a> Iter<'a> {
    /// The sequence of values the iterator has still to produce.
    pub closed spec fn remaining(self) -> Seq<u64> {
        link_seq(deref_link(self.next))
    }

    /// Produces the next value of the list, or `None` when the walk is
    /// over.
    pub fn next(&mut self) -> (r: Option<&'a u64>)
        ensures
            old(self).remaining().len() == 0 ==> r.is_none() && final(self).remaining() == old(
                self,
            ).remaining(),
            old(self).remaining().len() > 0 ==> (r matches Some(v) && *v == old(
                self,
            ).remaining()[0] && final(self).remaining() == old(self).remaining().drop_first()),
    {
        match self.next {
            None => None,
            Some(node) => {
                self.next = match &node.next {
                    None => None,
                    Some(next_node) => Some(&**next_node),
                };
                proof {
                    assert(old(self).remaining() =~= seq![node.val] + self.remaining());
                    assert(final(self).remaining() =~= old(self).remaining().drop_first());
                }
                Some(&node.val)
            },
        }
    }
}

impl View for LinkedList {
    type V = Seq<u64>;

    closed spec fn view(&self) -> Seq<u64> {
        link_seq(self.head)
    }
}

impl LinkedList {
    /// Creates an empty list.
    pub fn new() -> (l: Self)
        ensures
            l@ == Seq::<u64>::empty(),
    {
        LinkedList { head: None }
    }

    /// Starts a fresh walk over the list; the iterator will produce exactly
    /// the list's values, head first.
    pub fn iter<'a>(&'a self) -> (it: Iter<'a>)
        ensures
            it.remaining() == self@,
    {
        let it = Iter {
            next: match &self.head {
                None => None,
                Some(node) => Some(&**node),
            },
        };
        proof {
            assert(it.remaining() =~= self@);
        }
        it
    }

    /// Pushes a value at the front of the list.
    pub fn push_left(&mut self, val: u64)
        ensures
            final(self)@ == seq![val] + old(self)@,
    {
        let mut head = None;
        std::mem::swap(&mut head, &mut self.head);
        self.head = Some(Box::new(Node { val, next: head }));
    }

    /// Appends a value at the back of the chain of nodes.
    fn push_back_link(link: &mut Option<Box<Node>>, val: u64)
        ensures
            link_seq(*final(link)) == link_seq(*old(link)).push(val),
        decreases *old(link),
    {
        match link.take() {
            None => {
                *link = Some(Box::new(Node { val, next: None }));
                proof {
                    assert(link_seq(*link) =~= link_seq(*old(link)).push(val));
                }
            },
            Some(mut node) => {
                Self::push_back_link(&mut node.next, val);
                *link = Some(node);
                proof {
                    assert(link_seq(*link) =~= link_seq(*old(link)).push(val));
                }
            },
        }
    }

    /// Appends a value at the end of the list.
    pub fn push_right(&mut self, val: u64)
        ensures
            final(self)@ == old(self)@.push(val),
    {
        Self::push_back_link(&mut self.head, val);
    }

    /// Finds the first stored value equal to `val`.
    pub fn find(&self, val: &u64) -> (r: Option<&u64>)
        ensures
            r.is_some() <==> self@.contains(*val),
            r matches Some(v) ==> *v == *val,
    {
        let mut current: &Option<Box<Node>> = &self.head;
        loop
            invariant
                self@.contains(*val) <==> link_seq(*current).contains(*val),
            decreases link_seq(*current).len(),
        {
            match current {
                None => {
                    proof {
                        assert(link_seq(*current) =~= Seq::empty());
                    }
                    return None;
                },
                Some(node) => {
                    if node.val == *val {
                        proof {
                            assert(link_seq(*current)[0] == *val);
                        }
                        return Some(&node.val);
                    }
                    proof {
                        lemma_cons_contains(node.val, link_seq(node.next), *val);
                    }
                    current = &node.next;
                },
            }
        }
    }

    /// Whether the list stores a value equal to `val`.
    pub fn contains(&self, val: &u64) -> (r: bool)
        ensures
            r == self@.contains(*val),
    {
        self.find(val).is_some()
    }

    /// Removes the first node storing `val` from the chain.
    fn delete_link(link: &mut Option<Box<Node>>, val: u64) -> (r: bool)
        ensures
            link_seq(*final(link)) == remove_first(link_seq(*old(link)), val),
            r == link_seq(*old(link)).contains(val),
        decreases *old(link),
    {
        match link.take() {
            None => {
                proof {
                    assert(link_seq(*link) =~= Seq::empty());
                }
                false
            },
            Some(mut node) => {
                proof {
                    lemma_cons_contains(node.val, link_seq(node.next), val);
                }
                if node.val == val {
                    *link = node.next;
                    proof {
                        assert((seq![node.val] + link_seq(*link)).contains(val));
                        assert(link_seq(*link) =~= (seq![node.val] + link_seq(*link))
                            .drop_first());
                    }
                    true
                } else {
                    let ghost old_next = node.next;
                    let r = Self::delete_link(&mut node.next, val);
                    proof {
                        let s0 = link_seq(*old(link));
                        assert(s0 == seq![node.val] + link_seq(old_next));
                        assert(s0[0] == node.val);
                        assert(s0.drop_first() =~= link_seq(old_next));
                        assert(remove_first(s0, val) == seq![s0[0]] + remove_first(
                            s0.drop_first(),
                            val,
                        ));
                        assert(seq![node.val] + link_seq(node.next) =~= remove_first(s0, val));
                    }
                    *link = Some(node);
                    r
                }
            },
        }
    }

    /// Deletes the first occurrence of `val` and returns it; an absent
    /// value leaves the list unchanged and is reported as not found.
    pub fn delete(&mut self, val: &u64) -> (r: Result<u64, DeleteError>)
        ensures
            final(self)@ == remove_first(old(self)@, *val),
            old(self)@.contains(*val) ==> r == Ok::<u64, DeleteError>(*val),
            !old(self)@.contains(*val) ==> r == Err::<u64, DeleteError>(DeleteError::NotFound),
    {
        let v = *val;
        let found = Self::delete_link(&mut self.head, v);
        if found {
            Ok(v)
        } else {
            Err(DeleteError::NotFound)
        }
    }
}

/// The list `LinkedList::from` builds for a given sequence of values.
pub closed spec fn list_from_seq(s: Seq<u64>) -> LinkedList {
    LinkedList { head: links_of(s) }
}

/// The chain `links_of` builds stores exactly the given values.
proof fn lemma_links_of_seq(s: Seq<u64>)
    ensures
        link_seq(links_of(s)) == s,
    decreases s.len(),
{
    if s.len() == 0 {
        assert(link_seq(links_of(s)) =~= s);
    } else {
        lemma_links_of_seq(s.drop_first());
        assert(link_seq(links_of(s)) =~= s);
    }
}

/// A list built from a vector views exactly the vector's values, in order.
pub proof fn lemma_list_from_seq(s: Seq<u64>)
    ensures
        list_from_seq(s)@ == s,
{
    lemma_links_of_seq(s);
}

impl From<Vec<u64>> for LinkedList {
    /// Builds a list storing the vector's values in the same order.
    fn from(value: Vec<u64>) -> (l: Self) {
        let head = build_links(&value, 0);
        proof {
            assert(value@.skip(0) =~= value@);
        }
        LinkedList { head }
    }
}

impl vstd::std_specs::convert::FromSpecImpl<Vec<u64>> for LinkedList {
    open spec fn obeys_from_spec() -> bool {
        true
    }

    open spec fn from_spec(t: Vec<u64>) -> LinkedList {
        list_from_seq(t@)
    }
}

/// Builds the chain of nodes holding `v[i..]`.
fn build_links(v: &Vec<u64>, i: usize) -> (r: Option<Box<Node>>)
    requires
        i <= v@.len(),
    ensures
        r == links_of(v@.skip(i as int)),
    decreases v@.len() - i,
{
    if i == v.len() {
        None
    } else {
        let next = build_links(v, i + 1);
        proof {
            assert(v@.skip(i as int).drop_first() =~= v@.skip(i as int + 1));
            assert(v@.skip(i as int)[0] == v@[i as int]);
        }
        Some(Box::new(Node { val: v[i], next }))
    }
}

} // verus!
