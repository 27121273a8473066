//! An unbalanced binary search tree over `u64` values.
//!
//! The tree is viewed as the set of values it stores (`tree@`), and its
//! in-order sequence (`tree.in_order()`) is proved strictly sorted for
//! every tree the public operations can produce.  Duplicates are ignored
//! on insertion; deletion of a value with two children promotes the
//! in-order successor (the minimum of the right subtree).

use vstd::prelude::*;

verus! {

struct Node {
    val: u64,
    left: Option<Box<Node>>,
    right: Option<Box<Node>>,
}

/// A binary search tree storing a set of `u64` values.
pub struct BinarySearchTree {
    root: Option<Box<Node>>,
}

/// The set of values stored in a subtree.
spec fn link_set(link: Option<Box<Node>>) -> Set<u64>
    decreases link,
{
    match link {
        None => Set::empty(),
        Some(node) => link_set(node.left).union(link_set(node.right)).insert(node.val),
    }
}

/// The in-order sequence of values of a subtree.
spec fn link_seq(link: Option<Box<Node>>) -> Seq<u64>
    decreases link,
{
    match link {
        None => Seq::empty(),
        Some(node) => link_seq(node.left) + seq![node.val] + link_seq(node.right),
    }
}

/// The binary-search-tree order invariant: everything in a left subtree is
/// smaller, everything in a right subtree larger, than the node's value.
spec fn wf_link(link: Option<Box<Node>>) -> bool
    decreases link,
{
    match link {
        None => true,
        Some(node) => {
            &&& (forall|x: u64| link_set(node.left).contains(x) ==> x < node.val)
            &&& (forall|x: u64| link_set(node.right).contains(x) ==> x > node.val)
            &&& wf_link(node.left)
            &&& wf_link(node.right)
        },
    }
}

/// A sequence is strictly increasing.
pub open spec fn strictly_sorted(s: Seq<u64>) -> bool {
    forall|i: int, j: int| 0 <= i < j < s.len() ==> s[i] < s[j]
}

/// The values of the in-order sequence are exactly the values of the set.
proof fn lemma_link_seq_set(link: Option<Box<Node>>)
    ensures
        forall|x: u64| #[trigger] link_seq(link).contains(x) <==> link_set(link).contains(x),
    decreases link,
{
    match link {
        None => {
            assert(link_seq(link) =~= Seq::empty());
        },
        Some(node) => {
            lemma_link_seq_set(node.left);
            lemma_link_seq_set(node.right);
            assert forall|x: u64| #[trigger] link_set(link).contains(x) implies link_seq(
                link,
            ).contains(x) by {
                if link_set(node.left).contains(x) {
                    assert(link_seq(node.left).contains(x));
                    let i = choose|i: int|
                        0 <= i < link_seq(node.left).len() && link_seq(node.left)[i] == x;
                    assert(link_seq(link)[i] == x);
                } else if x == node.val {
                    assert(link_seq(link)[link_seq(node.left).len() as int] == x);
                } else {
                    assert(link_set(node.right).contains(x));
                    assert(link_seq(node.right).contains(x));
                    let i = choose|i: int|
                        0 <= i < link_seq(node.right).len() && link_seq(node.right)[i] == x;
                    assert(link_seq(link)[link_seq(node.left).len() + 1 + i] == x);
                }
            }
            assert forall|x: u64| #[trigger] link_seq(link).contains(x) implies link_set(
                link,
            ).contains(x) by {
                let i = choose|i: int| 0 <= i < link_seq(link).len() && link_seq(link)[i] == x;
                let ll = link_seq(node.left).len() as int;
                if i < ll {
                    assert(link_seq(node.left)[i] == x);
                    assert(link_seq(node.left).contains(x));
                } else if i == ll {
                    assert(x == node.val);
                } else {
                    assert(link_seq(node.right)[i - ll - 1] == x);
                    assert(link_seq(node.right).contains(x));
                }
            }
        },
    }
}

/// In a well-formed subtree the in-order sequence is strictly increasing.
proof fn lemma_link_seq_sorted(link: Option<Box<Node>>)
    requires
        wf_link(link),
    ensures
        strictly_sorted(link_seq(link)),
    decreases link,
{
    match link {
        None => {},
        Some(node) => {
            lemma_link_seq_sorted(node.left);
            lemma_link_seq_sorted(node.right);
            lemma_link_seq_set(node.left);
            lemma_link_seq_set(node.right);
            let s = link_seq(link);
            let ls = link_seq(node.left);
            let rs = link_seq(node.right);
            let ll = ls.len() as int;
            assert forall|i: int, j: int| 0 <= i < j < s.len() implies s[i] < s[j] by {
                if i < ll {
                    assert(ls.contains(ls[i]));
                }
                if j > ll {
                    assert(rs.contains(rs[j - ll - 1]));
                }
                if i < ll && j < ll {
                    assert(s[i] == ls[i] && s[j] == ls[j]);
                }
                if ll < i && ll < j {
                    assert(s[i] == rs[i - ll - 1] && s[j] == rs[j - ll - 1]);
                }
            }
        },
    }
}

impl View for BinarySearchTree {
    type V = Set<u64>;

    closed spec fn view(&self) -> Set<u64> {
        link_set(self.root)
    }
}

impl BinarySearchTree {
    /// The tree's internal invariant (binary-search-tree order).  It is the
    /// type invariant: every tree value the library hands out satisfies it.
    #[verifier::type_invariant]
    pub closed spec fn well_formed(self) -> bool {
        wf_link(self.root)
    }

    /// The in-order sequence of the stored values.
    pub closed spec fn in_order(self) -> Seq<u64> {
        link_seq(self.root)
    }

    /// Creates an empty tree.
    pub fn new() -> (tree: Self)
        ensures
            tree@ == Set::<u64>::empty(),
            tree.in_order() == Seq::<u64>::empty(),
    {
        BinarySearchTree { root: None }
    }

    fn search_link<'a>(link: &'a Option<Box<Node>>, val: &u64) -> (r: Option<&'a u64>)
        requires
            wf_link(*link),
        ensures
            r.is_some() <==> link_set(*link).contains(*val),
            r matches Some(v) ==> *v == *val,
        decreases *link,
    {
        match link {
            None => None,
            Some(node) => {
                if *val == node.val {
                    Some(&node.val)
                } else if *val < node.val {
                    proof {
                        assert(!link_set(node.right).contains(*val));
                    }
                    Self::search_link(&node.left, val)
                } else {
                    proof {
                        assert(!link_set(node.left).contains(*val));
                    }
                    Self::search_link(&node.right, val)
                }
            },
        }
    }

    /// Looks a value up; returns a reference to the stored value when present.
    pub fn search(&self, val: &u64) -> (r: Option<&u64>)
        ensures
            r.is_some() <==> self@.contains(*val),
            r matches Some(v) ==> *v == *val,
    {
        proof {
            use_type_invariant(&*self);
        }
        Self::search_link(&self.root, val)
    }

    fn insert_link(link: &mut Option<Box<Node>>, val: u64)
        requires
            wf_link(*old(link)),
        ensures
            wf_link(*final(link)),
            link_set(*final(link)) =~= link_set(*old(link)).insert(val),
            link_set(*old(link)).contains(val) ==> *final(link) == *old(link),
        decreases *old(link),
    {
        match link.take() {
            None => {
                *link = Some(Box::new(Node { val, left: None, right: None }));
            },
            Some(mut node) => {
                if val == node.val {
                    *link = Some(node);
                } else if val < node.val {
                    proof {
                        assert(!link_set(node.right).contains(val));
                    }
                    Self::insert_link(&mut node.left, val);
                    *link = Some(node);
                } else {
                    proof {
                        assert(!link_set(node.left).contains(val));
                    }
                    Self::insert_link(&mut node.right, val);
                    *link = Some(node);
                }
            },
        }
    }

    /// Inserts a value; inserting a value that is already present leaves the
    /// tree unchanged (duplicates are silently ignored).
    pub fn insert(&mut self, val: u64)
        ensures
            final(self)@ == old(self)@.insert(val),
            old(self)@.contains(val) ==> *final(self) == *old(self),
    {
        proof {
            use_type_invariant(&*self);
        }
        let mut root = None;
        std::mem::swap(&mut root, &mut self.root);
        Self::insert_link(&mut root, val);
        self.root = root;
    }

    fn min_link<'a>(link: &'a Option<Box<Node>>) -> (r: Option<&'a u64>)
        requires
            wf_link(*link),
        ensures
            r.is_some() <==> link.is_some(),
            r matches Some(m) ==> link_set(*link).contains(*m) && forall|x: u64|
                link_set(*link).contains(x) ==> *m <= x,
        decreases *link,
    {
        match link {
            None => None,
            Some(node) => {
                match &node.left {
                    None => {
                        proof {
                            assert(link_set(*link) == link_set(node.left).union(
                                link_set(node.right),
                            ).insert(node.val));
                            assert(link_set(node.left) =~= Set::empty());
                            assert forall|x: u64| link_set(*link).contains(x) implies node.val
                                <= x by {
                                if x != node.val {
                                    assert(link_set(node.right).contains(x));
                                }
                            }
                        }
                        Some(&node.val)
                    },
                    Some(_) => {
                        let r = Self::min_link(&node.left);
                        proof {
                            let m = *r.unwrap();
                            assert(link_set(node.left).contains(m));
                            assert forall|x: u64| link_set(*link).contains(x) implies m <= x by {
                                if link_set(node.right).contains(x) {
                                    assert(x > node.val);
                                }
                            }
                        }
                        r
                    },
                }
            },
        }
    }

    fn max_link<'a>(link: &'a Option<Box<Node>>) -> (r: Option<&'a u64>)
        requires
            wf_link(*link),
        ensures
            r.is_some() <==> link.is_some(),
            r matches Some(m) ==> link_set(*link).contains(*m) && forall|x: u64|
                link_set(*link).contains(x) ==> *m >= x,
        decreases *link,
    {
        match link {
            None => None,
            Some(node) => {
                match &node.right {
                    None => {
                        proof {
                            assert(link_set(*link) == link_set(node.left).union(
                                link_set(node.right),
                            ).insert(node.val));
                            assert(link_set(node.right) =~= Set::empty());
                            assert forall|x: u64| link_set(*link).contains(x) implies node.val
                                >= x by {
                                if x != node.val {
                                    assert(link_set(node.left).contains(x));
                                }
                            }
                        }
                        Some(&node.val)
                    },
                    Some(_) => {
                        let r = Self::max_link(&node.right);
                        proof {
                            let m = *r.unwrap();
                            assert(link_set(node.right).contains(m));
                            assert forall|x: u64| link_set(*link).contains(x) implies m >= x by {
                                if link_set(node.left).contains(x) {
                                    assert(x < node.val);
                                }
                            }
                        }
                        r
                    },
                }
            },
        }
    }

    /// The smallest stored value, or `None` on an empty tree.
    pub fn min(&self) -> (r: Option<&u64>)
        ensures
            r matches Some(m) ==> self@.contains(*m) && forall|x: u64| self@.contains(x) ==> *m
                <= x,
            r.is_none() ==> self@ =~= Set::<u64>::empty(),
    {
        proof {
            use_type_invariant(&*self);
        }
        Self::min_link(&self.root)
    }

    /// The largest stored value, or `None` on an empty tree.
    pub fn max(&self) -> (r: Option<&u64>)
        ensures
            r matches Some(m) ==> self@.contains(*m) && forall|x: u64| self@.contains(x) ==> *m
                >= x,
            r.is_none() ==> self@ =~= Set::<u64>::empty(),
    {
        proof {
            use_type_invariant(&*self);
        }
        Self::max_link(&self.root)
    }

    /// Detaches the minimum of a non-empty subtree, re-attaching the
    /// minimum's right child in its place, and returns the removed value.
    fn detach_min(link: &mut Option<Box<Node>>) -> (m: u64)
        requires
            old(link).is_some(),
            wf_link(*old(link)),
        ensures
            wf_link(*final(link)),
            link_set(*final(link)) =~= link_set(*old(link)).remove(m),
            link_set(*old(link)).contains(m),
            forall|x: u64| link_set(*old(link)).contains(x) ==> m <= x,
        decreases *old(link),
    {
        let mut node = link.take().unwrap();
        match &node.left {
            None => {
                let m = node.val;
                proof {
                    assert(link_set(node.left) =~= Set::empty());
                    assert(!link_set(node.right).contains(m));
                }
                *link = node.right;
                m
            },
            Some(_) => {
                let m = Self::detach_min(&mut node.left);
                proof {
                    assert(m < node.val);
                    assert(!link_set(node.right).contains(m));
                }
                *link = Some(node);
                m
            },
        }
    }

    fn delete_link(link: &mut Option<Box<Node>>, val: u64) -> (r: Option<u64>)
        requires
            wf_link(*old(link)),
        ensures
            wf_link(*final(link)),
            link_set(*final(link)) =~= link_set(*old(link)).remove(val),
            r == (if link_set(*old(link)).contains(val) {
                Some(val)
            } else {
                None::<u64>
            }),
            !link_set(*old(link)).contains(val) ==> *final(link) == *old(link),
        decreases *old(link),
    {
        match link.take() {
            None => None,
            Some(mut node) => {
                if val < node.val {
                    proof {
                        assert(!link_set(node.right).contains(val));
                    }
                    let r = Self::delete_link(&mut node.left, val);
                    *link = Some(node);
                    r
                } else if val > node.val {
                    proof {
                        assert(!link_set(node.left).contains(val));
                    }
                    let r = Self::delete_link(&mut node.right, val);
                    *link = Some(node);
                    r
                } else {
                    proof {
                        assert(!link_set(node.left).contains(val));
                        assert(!link_set(node.right).contains(val));
                    }
                    if node.left.is_none() {
                        proof {
                            assert(link_set(node.left) =~= Set::empty());
                        }
                        *link = node.right;
                    } else if node.right.is_none() {
                        proof {
                            assert(link_set(node.right) =~= Set::empty());
                        }
                        *link = node.left;
                    } else {
                        let m = Self::detach_min(&mut node.right);
                        proof {
                            assert(m > node.val);
                        }
                        node.val = m;
                        *link = Some(node);
                    }
                    Some(val)
                }
            },
        }
    }

    /// Deletes a value and returns it; returns `None`, leaving the tree
    /// unchanged, when the value is absent.
    pub fn delete(&mut self, val: &u64) -> (r: Option<u64>)
        ensures
            final(self)@ == old(self)@.remove(*val),
            r == (if old(self)@.contains(*val) {
                Some(*val)
            } else {
                None::<u64>
            }),
            !old(self)@.contains(*val) ==> *final(self) == *old(self),
    {
        proof {
            use_type_invariant(&*self);
        }
        let v = *val;
        let mut root = None;
        std::mem::swap(&mut root, &mut self.root);
        let r = Self::delete_link(&mut root, v);
        self.root = root;
        r
    }

    /// The in-order sequence of every tree is strictly sorted: a traversal
    /// yields the stored values in increasing order, without duplicates.
    pub proof fn lemma_in_order_sorted(&self)
        requires
            self.well_formed(),
        ensures
            strictly_sorted(self.in_order()),
    {
        lemma_link_seq_sorted(self.root);
    }

    /// The in-order sequence contains exactly the values of the tree's set.
    pub proof fn lemma_in_order_set(&self)
        ensures
            forall|x: u64| #[trigger] self.in_order().contains(x) <==> self@.contains(x),
    {
        lemma_link_seq_set(self.root);
    }
}

/// A lazy, restartable in-order iterator over a [`BinarySearchTree`].
///
/// The iterator keeps an explicit stack of borrowed nodes: for each stacked
/// node, its value and then its right subtree are still to be produced,
/// top of the stack first.
pub struct Iter<'a> {
    stack: Vec<&'a Node>,
}

/// The values a stack of nodes still has to produce, in order.
spec fn stack_remaining(s: Seq<&Node>) -> Seq<u64>
    decreases s.len(),
{
    if s.len() == 0 {
        Seq::empty()
    } else {
        seq![s.last().val] + link_seq(s.last().right) + stack_remaining(s.drop_last())
    }
}

/// Pushes the whole left spine of `link` (each node, then its left child,
/// and so on) onto the stack.
fn push_spine<'a>(stack: &mut Vec<&'a Node>, link: &'a Option<Box<Node>>)
    ensures
        stack_remaining(final(stack)@) =~= link_seq(*link) + stack_remaining(old(stack)@),
    decreases *link,
{
    match link {
        None => {},
        Some(node) => {
            stack.push(&**node);
            proof {
                assert(stack@.drop_last() =~= old(stack)@);
                assert(stack_remaining(stack@) =~= seq![node.val] + link_seq(node.right)
                    + stack_remaining(old(stack)@));
            }
            push_spine(stack, &node.left);
            proof {
                assert(stack_remaining(stack@) =~= link_seq(*link) + stack_remaining(
                    old(stack)@,
                ));
            }
        },
    }
}

impl<'a> Iter<'a> {
    /// The sequence of values the iterator has still to produce.
    pub closed spec fn remaining(self) -> Seq<u64> {
        stack_remaining(self.stack@)
    }

    /// Produces the next value in ascending order, or `None` when the pass
    /// is exhausted.
    pub fn next(&mut self) -> (r: Option<&'a u64>)
        ensures
            old(self).remaining().len() == 0 ==> r.is_none() && final(self).remaining()
                == old(self).remaining(),
            old(self).remaining().len() > 0 ==> (r matches Some(v) && *v == old(
                self,
            ).remaining()[0] && final(self).remaining() == old(self).remaining().drop_first()),
    {
        match self.stack.pop() {
            None => None,
            Some(node) => {
                proof {
                    assert(old(self).remaining() =~= seq![node.val] + link_seq(node.right)
                        + stack_remaining(self.stack@));
                }
                push_spine(&mut self.stack, &node.right);
                proof {
                    assert(final(self).remaining() =~= old(self).remaining().drop_first());
                }
                Some(&node.val)
            },
        }
    }
}

impl BinarySearchTree {
    /// Starts a fresh in-order pass over the tree; the iterator will produce
    /// exactly the tree's in-order sequence.
    pub fn iter<'a>(&'a self) -> (it: Iter<'a>)
        ensures
            it.remaining() == self.in_order(),
    {
        let mut stack: Vec<&'a Node> = Vec::new();
        push_spine(&mut stack, &self.root);
        proof {
            assert(stack_remaining(stack@) =~= self.in_order());
        }
        Iter { stack }
    }
}

/// Round trip: a value just inserted is found again, and a value just
/// deleted is not.  `insert` takes the view from `s` to `s.insert(val)`,
/// `delete` to `s.remove(val)`, and `search` finds a value exactly when the
/// view contains it, so the two claims below state the round trip.
pub proof fn lemma_round_trip(s: Set<u64>, val: u64)
    ensures
        s.insert(val).contains(val),
        !s.remove(val).contains(val),
{
}

/// The view left after deleting the values of `order`, one at a time.
pub open spec fn delete_all(s: Set<u64>, order: Seq<u64>) -> Set<u64>
    decreases order.len(),
{
    if order.len() == 0 {
        s
    } else {
        delete_all(s.remove(order[0]), order.drop_first())
    }
}

/// Deletion completeness: deleting every stored value, one at a time, in
/// any order that covers the tree's set, leaves the empty tree.  Each
/// `delete` takes the view from `s` to `s.remove(val)`, so a covering
/// sequence of deletions leaves the empty view.
pub proof fn lemma_delete_all_empties(s: Set<u64>, order: Seq<u64>)
    requires
        forall|x: u64| s.contains(x) ==> order.contains(x),
    ensures
        delete_all(s, order) =~= Set::<u64>::empty(),
    decreases order.len(),
{
    if order.len() == 0 {
    } else {
        let rest = order.drop_first();
        assert forall|x: u64| s.remove(order[0]).contains(x) implies rest.contains(x) by {
            let i = choose|i: int| 0 <= i < order.len() && order[i] == x;
            assert(rest[i - 1] == x);
        }
        lemma_delete_all_empties(s.remove(order[0]), rest);
    }
}

} // verus!
