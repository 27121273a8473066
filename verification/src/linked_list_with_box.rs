//! A singly linked list of `u64` values with deletion.
//!
//! The list is viewed as the sequence of its values, head first.  `delete`
//! removes the first occurrence of a value and returns it; a list can also
//! be built from a vector, keeping the vector's order.

use vstd::prelude::*;

verus! {

struct Node {
    val: u64,
    next: Option<Box<Node>>,
}

/// A singly linked list supporting deletion.
pub struct LinkedList {
    head: Option<Box<Node>>,
}

/// The sequence of values stored in a chain of nodes, head first.
spec fn link_seq(link: Option<Box<Node>>) -> Seq<u64>
    decreases link,
{
    match link {
        None => Seq::empty(),
        Some(node) => seq![node.val] + link_seq(node.next),
    }
}

/// The chain of nodes storing a given sequence of values.
spec fn links_of(s: Seq<u64>) -> Option<Box<Node>>
    decreases s.len(),
{
    if s.len() == 0 {
        None
    } else {
        Some(Box::new(Node { val: s[0], next: links_of(s.drop_first()) }))
    }
}

/// A sequence with the first occurrence of `v` removed (the sequence
/// itself when `v` does not occur).
pub open spec fn remove_first(s: Seq<u64>, v: u64) -> Seq<u64>
    decreases s.len(),
{
    if s.len() == 0 {
        s
    } else if s[0] == v {
        s.drop_first()
    } else {
        seq![s[0]] + remove_first(s.drop_first(), v)
    }
}

/// A non-empty sequence contains a value exactly when its first element is
/// that value or the rest contains it.
proof fn lemma_cons_contains(v: u64, rest: Seq<u64>, x: u64)
    ensures
        (seq![v] + rest).contains(x) <==> (x == v || rest.contains(x)),
{
    let s = seq![v] + rest;
    if x == v {
        assert(s[0] == x);
    }
    if rest.contains(x) {
        let i = choose|i: int| 0 <= i < rest.len() && rest[i] == x;
        assert(s[i + 1] == x);
    }
    if s.contains(x) && x != v {
        let i = choose|i: int| 0 <= i < s.len() && s[i] == x;
        assert(rest[i - 1] == x);
    }
}

impl View for LinkedList {
    type V = Seq<u64>;

    closed spec fn view(&self) -> Seq<u64> {
        link_seq(self.head)
    }
}

impl LinkedList {
    /// Creates an empty list.
    pub fn new() -> (l: Self)
        ensures
            l@ == Seq::<u64>::empty(),
    {
        LinkedList { head: None }
    }

    /// Appends a value at the back of the chain of nodes.
    fn push_back_link(link: &mut Option<Box<Node>>, val: u64)
        ensures
            link_seq(*final(link)) == link_seq(*old(link)).push(val),
        decreases *old(link),
    {
        match link.take() {
            None => {
                *link = Some(Box::new(Node { val, next: None }));
                proof {
                    assert(link_seq(*link) =~= link_seq(*old(link)).push(val));
                }
            },
            Some(mut node) => {
                Self::push_back_link(&mut node.next, val);
                *link = Some(node);
                proof {
                    assert(link_seq(*link) =~= link_seq(*old(link)).push(val));
                }
            },
        }
    }

    /// Appends a value at the end of the list.
    pub fn push_right(&mut self, val: u64)
        ensures
            final(self)@ == old(self)@.push(val),
    {
        Self::push_back_link(&mut self.head, val);
    }

    /// Pushes a value at the front of the list.
    pub fn push_left(&mut self, val: u64)
        ensures
            final(self)@ == seq![val] + old(self)@,
    {
        let mut head = None;
        std::mem::swap(&mut head, &mut self.head);
        self.head = Some(Box::new(Node { val, next: head }));
    }

    /// Finds the first stored value equal to `val`.
    pub fn find(&self, val: &u64) -> (r: Option<&u64>)
        ensures
            r.is_some() <==> self@.contains(*val),
            r matches Some(v) ==> *v == *val,
    {
        let mut current: &Option<Box<Node>> = &self.head;
        loop
            invariant
                self@.contains(*val) <==> link_seq(*current).contains(*val),
            decreases link_seq(*current).len(),
        {
            match current {
                None => {
                    proof {
                        assert(link_seq(*current) =~= Seq::empty());
                    }
                    return None;
                },
                Some(node) => {
                    if node.val == *val {
                        proof {
                            assert(link_seq(*current)[0] == *val);
                        }
                        return Some(&node.val);
                    }
                    proof {
                        lemma_cons_contains(node.val, link_seq(node.next), *val);
                    }
                    current = &node.next;
                },
            }
        }
    }

    /// Removes the first node storing `val` from the chain.
    fn delete_link(link: &mut Option<Box<Node>>, val: u64) -> (r: Option<u64>)
        ensures
            link_seq(*final(link)) == remove_first(link_seq(*old(link)), val),
            r == (if link_seq(*old(link)).contains(val) {
                Some(val)
            } else {
                None::<u64>
            }),
        decreases *old(link),
    {
        match link.take() {
            None => {
                proof {
                    assert(link_seq(*link) =~= Seq::empty());
                }
                None
            },
            Some(mut node) => {
                proof {
                    lemma_cons_contains(node.val, link_seq(node.next), val);
                }
                if node.val == val {
                    *link = node.next;
                    proof {
                        assert((seq![node.val] + link_seq(*link)).contains(val));
                        assert(link_seq(*link) =~= (seq![node.val] + link_seq(*link))
                            .drop_first());
                    }
                    Some(val)
                } else {
                    let ghost old_next = node.next;
                    let r = Self::delete_link(&mut node.next, val);
                    proof {
                        let s0 = link_seq(*old(link));
                        assert(s0 == seq![node.val] + link_seq(old_next));
                        assert(s0[0] == node.val);
                        assert(s0.drop_first() =~= link_seq(old_next));
                        assert(remove_first(s0, val) == seq![s0[0]] + remove_first(
                            s0.drop_first(),
                            val,
                        ));
                        assert(seq![node.val] + link_seq(node.next) =~= remove_first(s0, val));
                    }
                    *link = Some(node);
                    r
                }
            },
        }
    }

    /// Deletes the first occurrence of `val` and returns it; returns `None`
    /// and leaves the list unchanged when `val` is absent.
    pub fn delete(&mut self, val: &u64) -> (r: Option<u64>)
        ensures
            final(self)@ == remove_first(old(self)@, *val),
            r == (if old(self)@.contains(*val) {
                Some(*val)
            } else {
                None::<u64>
            }),
    {
        let v = *val;
        Self::delete_link(&mut self.head, v)
    }
}

/// The first occurrence of an absent value removes nothing.
pub proof fn lemma_remove_first_absent(s: Seq<u64>, v: u64)
    requires
        !s.contains(v),
    ensures
        remove_first(s, v) == s,
    decreases s.len(),
{
    if s.len() > 0 {
        assert(s[0] != v);
        lemma_cons_contains(s[0], s.drop_first(), v);
        lemma_remove_first_absent(s.drop_first(), v);
        assert(remove_first(s, v) =~= s);
    }
}

impl From<Vec<u64>> for LinkedList {
    /// Builds a list storing the vector's values in the same order.
    fn from(value: Vec<u64>) -> (l: Self) {
        let head = build_links(&value, 0);
        proof {
            assert(value@.skip(0) =~= value@);
        }
        LinkedList { head }
    }
}

impl vstd::std_specs::convert::FromSpecImpl<Vec<u64>> for LinkedList {
    open spec fn obeys_from_spec() -> bool {
        true
    }

    open spec fn from_spec(t: Vec<u64>) -> LinkedList {
        list_from_seq(t@)
    }
}

/// The list `LinkedList::from` builds for a given sequence of values.
pub closed spec fn list_from_seq(s: Seq<u64>) -> LinkedList {
    LinkedList { head: links_of(s) }
}

/// The chain `links_of` builds stores exactly the given values.
proof fn lemma_links_of_seq(s: Seq<u64>)
    ensures
        link_seq(links_of(s)) == s,
    decreases s.len(),
{
    if s.len() == 0 {
        assert(link_seq(links_of(s)) =~= s);
    } else {
        lemma_links_of_seq(s.drop_first());
        assert(link_seq(links_of(s)) =~= s);
    }
}

/// A list built from a vector views exactly the vector's values, in order.
pub proof fn lemma_list_from_seq(s: Seq<u64>)
    ensures
        list_from_seq(s)@ == s,
{
    lemma_links_of_seq(s);
}

/// Builds the chain of nodes holding `v[i..]`.
fn build_links(v: &Vec<u64>, i: usize) -> (r: Option<Box<Node>>)
    requires
        i <= v@.len(),
    ensures
        r == links_of(v@.skip(i as int)),
    decreases v@.len() - i,
{
    if i == v.len() {
        None
    } else {
        let next = build_links(v, i + 1);
        proof {
            assert(v@.skip(i as int).drop_first() =~= v@.skip(i as int + 1));
            assert(v@.skip(i as int)[0] == v@[i as int]);
        }
        Some(Box::new(Node { val: v[i], next }))
    }
}

} // verus!
