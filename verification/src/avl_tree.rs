//! A height-balanced (AVL) binary search tree over `u64` values.
//!
//! Every node carries its subtree height (1 for a leaf).  After every
//! insertion the tree restores, by single or double rotations, the balance
//! invariant: at every node the left and right subtree heights differ by at
//! most one, and every stored height equals one plus the larger child
//! height.  Both facts are part of the tree's type invariant, so they hold
//! of every tree the library hands out.

use vstd::prelude::*;

verus! {

/// A node of the balanced tree; `height` caches the subtree height.
pub struct Node {
    val: u64,
    left: Option<Box<Node>>,
    right: Option<Box<Node>>,
    height: usize,
}

/// A height-balanced binary search tree storing a set of `u64` values.
pub struct AvlTree {
    root: Option<Box<Node>>,
}

spec fn nat_max(a: nat, b: nat) -> nat {
    if a >= b {
        a
    } else {
        b
    }
}

/// The true height of a subtree: 0 when absent, else 1 plus the larger
/// child height.
spec fn link_height(link: Option<Box<Node>>) -> nat
    decreases link,
{
    match link {
        None => 0,
        Some(node) => 1 + nat_max(link_height(node.left), link_height(node.right)),
    }
}

/// Every stored height equals the true height of its subtree.
spec fn link_heights_ok(link: Option<Box<Node>>) -> bool
    decreases link,
{
    match link {
        None => true,
        Some(node) => {
            &&& node.height == 1 + nat_max(link_height(node.left), link_height(node.right))
            &&& link_heights_ok(node.left)
            &&& link_heights_ok(node.right)
        },
    }
}

/// Every node's subtree heights differ by at most one.
spec fn link_balanced(link: Option<Box<Node>>) -> bool
    decreases link,
{
    match link {
        None => true,
        Some(node) => {
            &&& -1 <= link_height(node.left) - link_height(node.right) <= 1
            &&& link_balanced(node.left)
            &&& link_balanced(node.right)
        },
    }
}

/// The set of values stored in a subtree.
spec fn link_set(link: Option<Box<Node>>) -> Set<u64>
    decreases link,
{
    match link {
        None => Set::empty(),
        Some(node) => link_set(node.left).union(link_set(node.right)).insert(node.val),
    }
}

/// The in-order sequence of values of a subtree.
spec fn link_seq(link: Option<Box<Node>>) -> Seq<u64>
    decreases link,
{
    match link {
        None => Seq::empty(),
        Some(node) => link_seq(node.left) + seq![node.val] + link_seq(node.right),
    }
}

/// The binary-search-tree order invariant.
spec fn bst_ok(link: Option<Box<Node>>) -> bool
    decreases link,
{
    match link {
        None => true,
        Some(node) => {
            &&& (forall|x: u64| link_set(node.left).contains(x) ==> x < node.val)
            &&& (forall|x: u64| link_set(node.right).contains(x) ==> x > node.val)
            &&& bst_ok(node.left)
            &&& bst_ok(node.right)
        },
    }
}

/// A non-empty subtree has positive height.
proof fn lemma_height_some(link: Option<Box<Node>>)
    ensures
        link_height(link) > 0 <==> link.is_some(),
{
}

/// The values of the in-order sequence are exactly the values of the set.
proof fn lemma_link_seq_set(link: Option<Box<Node>>)
    ensures
        forall|x: u64| #[trigger] link_seq(link).contains(x) <==> link_set(link).contains(x),
    decreases link,
{
    match link {
        None => {
            assert(link_seq(link) =~= Seq::empty());
        },
        Some(node) => {
            lemma_link_seq_set(node.left);
            lemma_link_seq_set(node.right);
            assert forall|x: u64| #[trigger] link_set(link).contains(x) implies link_seq(
                link,
            ).contains(x) by {
                if link_set(node.left).contains(x) {
                    assert(link_seq(node.left).contains(x));
                    let i = choose|i: int|
                        0 <= i < link_seq(node.left).len() && link_seq(node.left)[i] == x;
                    assert(link_seq(link)[i] == x);
                } else if x == node.val {
                    assert(link_seq(link)[link_seq(node.left).len() as int] == x);
                } else {
                    assert(link_set(node.right).contains(x));
                    assert(link_seq(node.right).contains(x));
                    let i = choose|i: int|
                        0 <= i < link_seq(node.right).len() && link_seq(node.right)[i] == x;
                    assert(link_seq(link)[link_seq(node.left).len() + 1 + i] == x);
                }
            }
            assert forall|x: u64| #[trigger] link_seq(link).contains(x) implies link_set(
                link,
            ).contains(x) by {
                let i = choose|i: int| 0 <= i < link_seq(link).len() && link_seq(link)[i] == x;
                let ll = link_seq(node.left).len() as int;
                if i < ll {
                    assert(link_seq(node.left)[i] == x);
                    assert(link_seq(node.left).contains(x));
                } else if i == ll {
                    assert(x == node.val);
                } else {
                    assert(link_seq(node.right)[i - ll - 1] == x);
                    assert(link_seq(node.right).contains(x));
                }
            }
        },
    }
}

/// In a well-ordered subtree the in-order sequence is strictly increasing.
proof fn lemma_link_seq_sorted(link: Option<Box<Node>>)
    requires
        bst_ok(link),
    ensures
        crate::binary_search_tree::strictly_sorted(link_seq(link)),
    decreases link,
{
    match link {
        None => {},
        Some(node) => {
            lemma_link_seq_sorted(node.left);
            lemma_link_seq_sorted(node.right);
            lemma_link_seq_set(node.left);
            lemma_link_seq_set(node.right);
            let s = link_seq(link);
            let ls = link_seq(node.left);
            let rs = link_seq(node.right);
            let ll = ls.len() as int;
            assert forall|i: int, j: int| 0 <= i < j < s.len() implies s[i] < s[j] by {
                if i < ll {
                    assert(ls.contains(ls[i]));
                }
                if j > ll {
                    assert(rs.contains(rs[j - ll - 1]));
                }
                if i < ll && j < ll {
                    assert(s[i] == ls[i] && s[j] == ls[j]);
                }
                if ll < i && ll < j {
                    assert(s[i] == rs[i - ll - 1] && s[j] == rs[j - ll - 1]);
                }
            }
        },
    }
}

/// Reads a subtree's height from its root node (0 for an absent subtree).
fn height(link: &Option<Box<Node>>) -> (h: usize)
    requires
        link_heights_ok(*link),
    ensures
        h == link_height(*link),
{
    match link {
        None => 0,
        Some(node) => node.height,
    }
}

impl Node {
    /// Recomputes the stored height from the children's stored heights.
    fn update_height(&mut self)
        requires
            link_heights_ok(old(self).left),
            link_heights_ok(old(self).right),
            link_height(old(self).left) <= usize::MAX - 1,
            link_height(old(self).right) <= usize::MAX - 1,
        ensures
            final(self).val == old(self).val,
            final(self).left == old(self).left,
            final(self).right == old(self).right,
            final(self).height == 1 + nat_max(
                link_height(old(self).left),
                link_height(old(self).right),
            ),
    {
        let left_height = height(&self.left);
        let right_height = height(&self.right);
        let larger = if left_height >= right_height {
            left_height
        } else {
            right_height
        };
        self.height = 1 + larger;
    }

    /// The difference between the left and right subtree heights.
    fn balance_factor(&self) -> (bf: i32)
        requires
            link_heights_ok(self.left),
            link_heights_ok(self.right),
            -2 <= link_height(self.left) - link_height(self.right) <= 2,
        ensures
            bf == link_height(self.left) - link_height(self.right),
    {
        let left_height = height(&self.left);
        let right_height = height(&self.right);
        if left_height >= right_height {
            (left_height - right_height) as i32
        } else {
            -((right_height - left_height) as i32)
        }
    }
}

/// Promotes the right child to subtree root; the old root becomes its left
/// child and inherits the promoted node's former left subtree as its right.
fn rotate_left(mut node: Box<Node>) -> (r: Box<Node>)
    requires
        node.right.is_some(),
        link_heights_ok(node.left),
        link_heights_ok(node.right),
        bst_ok(Some(node)),
        link_height(Some(node)) <= usize::MAX - 1,
    ensures
        r.val == node.right.unwrap().val,
        r.left.is_some(),
        r.left.unwrap().val == node.val,
        r.left.unwrap().left == node.left,
        r.left.unwrap().right == node.right.unwrap().left,
        r.right == node.right.unwrap().right,
        link_heights_ok(Some(r)),
        bst_ok(Some(r)),
        link_set(Some(r)) =~= link_set(Some(node)),
{
    let ghost old_node = node;
    proof {
        let r0 = node.right.unwrap();
        assert(node.right == Some(r0));
        assert(link_heights_ok(Some(r0)));
        assert(link_height(Some(old_node)) == 1 + nat_max(
            link_height(old_node.left),
            link_height(old_node.right),
        ));
        assert(link_height(node.right) == 1 + nat_max(
            link_height(r0.left),
            link_height(r0.right),
        ));
    }
    let mut new_root = node.right.take().unwrap();
    node.right = new_root.left.take();
    proof {
        lemma_rotate_sets(old_node);
    }
    (&mut *node).update_height();
    new_root.left = Some(node);
    (&mut *new_root).update_height();
    proof {
        assert(link_heights_ok(new_root.left));
        assert(link_heights_ok(Some(new_root)));
        lemma_rotate_left_order(old_node, new_root);
    }
    new_root
}

/// Set bookkeeping shared by both rotations: the subtree's set is the
/// union of the three fragment sets and the two node values.
proof fn lemma_rotate_sets(node: Box<Node>)
    ensures
        node.right.is_some() ==> link_set(Some(node)) =~= link_set(node.left).union(
            link_set(node.right.unwrap().left),
        ).union(link_set(node.right.unwrap().right)).insert(node.right.unwrap().val).insert(
            node.val,
        ),
        node.left.is_some() ==> link_set(Some(node)) =~= link_set(node.left.unwrap().left).union(
            link_set(node.left.unwrap().right),
        ).union(link_set(node.right)).insert(node.left.unwrap().val).insert(node.val),
{
    if node.right.is_some() {
        assert(link_set(node.right) =~= link_set(node.right.unwrap().left).union(
            link_set(node.right.unwrap().right),
        ).insert(node.right.unwrap().val));
    }
    if node.left.is_some() {
        assert(link_set(node.left) =~= link_set(node.left.unwrap().left).union(
            link_set(node.left.unwrap().right),
        ).insert(node.left.unwrap().val));
    }
}

/// Order bookkeeping for `rotate_left`: the rotated subtree keeps the
/// binary-search-tree order and the same set of values.
proof fn lemma_rotate_left_order(node: Box<Node>, r: Box<Node>)
    requires
        node.right.is_some(),
        bst_ok(Some(node)),
        r.val == node.right.unwrap().val,
        r.left.is_some(),
        r.left.unwrap().val == node.val,
        r.left.unwrap().left == node.left,
        r.left.unwrap().right == node.right.unwrap().left,
        r.right == node.right.unwrap().right,
    ensures
        bst_ok(Some(r)),
        link_set(Some(r)) =~= link_set(Some(node)),
{
    let old_right = node.right.unwrap();
    let new_left = r.left.unwrap();
    assert(node.right == Some(old_right));
    assert(bst_ok(Some(old_right)));
    assert(link_set(node.right) =~= link_set(old_right.left).union(link_set(old_right.right))
        .insert(old_right.val));
    assert(link_set(Some(new_left)) =~= link_set(node.left).union(link_set(old_right.left))
        .insert(node.val));
    assert(forall|x: u64|
        link_set(old_right.left).contains(x) ==> link_set(node.right).contains(x));
    assert(forall|x: u64|
        link_set(old_right.right).contains(x) ==> link_set(node.right).contains(x));
    assert(node.val < old_right.val) by {
        assert(link_set(node.right).contains(old_right.val));
    }
    assert forall|x: u64| link_set(Some(new_left)).contains(x) implies x < r.val by {
        if link_set(node.left).contains(x) {
            assert(x < node.val);
        } else if link_set(old_right.left).contains(x) {
            assert(link_set(node.right).contains(x));
            assert(x < old_right.val);
        }
    }
    assert forall|x: u64| link_set(r.right).contains(x) implies x > r.val by {
        assert(link_set(node.right).contains(x));
    }
    assert forall|x: u64| link_set(new_left.right).contains(x) implies x > new_left.val by {
        assert(link_set(node.right).contains(x));
    }
    assert(bst_ok(Some(new_left)));
    assert(bst_ok(Some(r)));
    lemma_rotate_sets(node);
    assert(link_set(Some(r)) =~= link_set(Some(new_left)).union(link_set(r.right)).insert(r.val));
}

/// Promotes the left child to subtree root; the old root becomes its right
/// child and inherits the promoted node's former right subtree as its left.
fn rotate_right(mut node: Box<Node>) -> (r: Box<Node>)
    requires
        node.left.is_some(),
        link_heights_ok(node.left),
        link_heights_ok(node.right),
        bst_ok(Some(node)),
        link_height(Some(node)) <= usize::MAX - 1,
    ensures
        r.val == node.left.unwrap().val,
        r.right.is_some(),
        r.right.unwrap().val == node.val,
        r.right.unwrap().right == node.right,
        r.right.unwrap().left == node.left.unwrap().right,
        r.left == node.left.unwrap().left,
        link_heights_ok(Some(r)),
        bst_ok(Some(r)),
        link_set(Some(r)) =~= link_set(Some(node)),
{
    let ghost old_node = node;
    proof {
        let l0 = node.left.unwrap();
        assert(node.left == Some(l0));
        assert(link_heights_ok(Some(l0)));
        assert(link_height(Some(old_node)) == 1 + nat_max(
            link_height(old_node.left),
            link_height(old_node.right),
        ));
        assert(link_height(node.left) == 1 + nat_max(
            link_height(l0.left),
            link_height(l0.right),
        ));
    }
    let mut new_root = node.left.take().unwrap();
    node.left = new_root.right.take();
    proof {
        lemma_rotate_sets(old_node);
    }
    (&mut *node).update_height();
    new_root.right = Some(node);
    (&mut *new_root).update_height();
    proof {
        assert(link_heights_ok(new_root.right));
        assert(link_heights_ok(Some(new_root)));
        lemma_rotate_right_order(old_node, new_root);
    }
    new_root
}

/// Order bookkeeping for `rotate_right`, the mirror of
/// `lemma_rotate_left_order`.
proof fn lemma_rotate_right_order(node: Box<Node>, r: Box<Node>)
    requires
        node.left.is_some(),
        bst_ok(Some(node)),
        r.val == node.left.unwrap().val,
        r.right.is_some(),
        r.right.unwrap().val == node.val,
        r.right.unwrap().right == node.right,
        r.right.unwrap().left == node.left.unwrap().right,
        r.left == node.left.unwrap().left,
    ensures
        bst_ok(Some(r)),
        link_set(Some(r)) =~= link_set(Some(node)),
{
    let old_left = node.left.unwrap();
    let new_right = r.right.unwrap();
    assert(node.left == Some(old_left));
    assert(bst_ok(Some(old_left)));
    assert(link_set(node.left) =~= link_set(old_left.left).union(link_set(old_left.right)).insert(
        old_left.val,
    ));
    assert(link_set(Some(new_right)) =~= link_set(old_left.right).union(link_set(node.right))
        .insert(node.val));
    assert(forall|x: u64| link_set(old_left.left).contains(x) ==> link_set(node.left).contains(x));
    assert(forall|x: u64| link_set(old_left.right).contains(x) ==> link_set(node.left).contains(x));
    assert(node.val > old_left.val) by {
        assert(link_set(node.left).contains(old_left.val));
    }
    assert forall|x: u64| link_set(Some(new_right)).contains(x) implies x > r.val by {
        if link_set(node.right).contains(x) {
            assert(x > node.val);
        } else if link_set(old_left.right).contains(x) {
            assert(link_set(node.left).contains(x));
            assert(x > old_left.val);
        }
    }
    assert forall|x: u64| link_set(r.left).contains(x) implies x < r.val by {
        assert(link_set(node.left).contains(x));
    }
    assert forall|x: u64| link_set(new_right.left).contains(x) implies x < new_right.val by {
        assert(link_set(node.left).contains(x));
    }
    assert(bst_ok(Some(new_right)));
    assert(bst_ok(Some(r)));
    lemma_rotate_sets(node);
    assert(link_set(Some(r)) =~= link_set(r.left).union(link_set(Some(new_right))).insert(r.val));
}

/// Restores the balance invariant at a node whose subtrees are balanced
/// and whose own imbalance is at most two, by a single or double rotation.
fn rebalance(mut node: Box<Node>) -> (r: Box<Node>)
    requires
        link_heights_ok(Some(node)),
        bst_ok(Some(node)),
        link_balanced(node.left),
        link_balanced(node.right),
        -2 <= link_height(node.left) - link_height(node.right) <= 2,
        link_height(Some(node)) <= usize::MAX - 1,
    ensures
        link_heights_ok(Some(r)),
        bst_ok(Some(r)),
        link_balanced(Some(r)),
        link_set(Some(r)) =~= link_set(Some(node)),
        link_height(Some(node)) - 1 <= link_height(Some(r)) <= link_height(Some(node)),
        -1 <= link_height(node.left) - link_height(node.right) <= 1 ==> r == node,
{
    let ghost old_node = node;
    let bf = (&*node).balance_factor();
    if bf == 2 {
        proof {
            lemma_height_some(node.left);
            let l = node.left.unwrap();
            assert(node.left == Some(l));
            assert(link_heights_ok(node.left));
            assert(link_heights_ok(l.left) && link_heights_ok(l.right));
            assert(link_balanced(node.left));
            assert(-1 <= link_height(l.left) - link_height(l.right) <= 1);
        }
        let left_bf = (&**node.left.as_ref().unwrap()).balance_factor();
        if left_bf >= 0 {
            let r = rotate_right(node);
            proof {
                lemma_rebalance_left_heavy(old_node, r, left_bf as int);
            }
            r
        } else {
            let ghost old_left = node.left.unwrap();
            proof {
                lemma_height_some(old_left.right);
                assert(node.left == Some(old_left));
                assert(bst_ok(node.left));
                assert(link_height(Some(old_node)) == 1 + nat_max(
                    link_height(old_node.left),
                    link_height(old_node.right),
                ));
                assert(link_height(node.left) <= usize::MAX - 2);
            }
            let taken_left = node.left.take().unwrap();
            let new_left = rotate_left(taken_left);
            proof {
                assert forall|x: u64| link_set(Some(new_left)).contains(x) implies x
                    < node.val by {
                    assert(link_set(old_node.left).contains(x));
                }
                assert(link_height(Some(new_left)) == link_height(old_node.left));
            }
            node.left = Some(new_left);
            let r = rotate_right(node);
            proof {
                lemma_rebalance_left_double(old_node, new_left, r);
            }
            r
        }
    } else if bf == -2 {
        proof {
            lemma_height_some(node.right);
            let rt = node.right.unwrap();
            assert(node.right == Some(rt));
            assert(link_heights_ok(node.right));
            assert(link_heights_ok(rt.left) && link_heights_ok(rt.right));
            assert(link_balanced(node.right));
            assert(-1 <= link_height(rt.left) - link_height(rt.right) <= 1);
        }
        let right_bf = (&**node.right.as_ref().unwrap()).balance_factor();
        if right_bf <= 0 {
            let r = rotate_left(node);
            proof {
                lemma_rebalance_right_heavy(old_node, r, right_bf as int);
            }
            r
        } else {
            let ghost old_right = node.right.unwrap();
            proof {
                lemma_height_some(old_right.left);
                assert(node.right == Some(old_right));
                assert(bst_ok(node.right));
                assert(link_height(Some(old_node)) == 1 + nat_max(
                    link_height(old_node.left),
                    link_height(old_node.right),
                ));
                assert(link_height(node.right) <= usize::MAX - 2);
            }
            let taken_right = node.right.take().unwrap();
            let new_right = rotate_right(taken_right);
            proof {
                assert forall|x: u64| link_set(Some(new_right)).contains(x) implies x
                    > node.val by {
                    assert(link_set(old_node.right).contains(x));
                }
                assert(link_height(Some(new_right)) == link_height(old_node.right));
            }
            node.right = Some(new_right);
            let r = rotate_left(node);
            proof {
                lemma_rebalance_right_double(old_node, new_right, r);
            }
            r
        }
    } else {
        node
    }
}

/// Height and balance arithmetic for the single right rotation of a
/// left-heavy node whose left child does not lean right.
proof fn lemma_rebalance_left_heavy(node: Box<Node>, r: Box<Node>, left_bf: int)
    requires
        node.left.is_some(),
        link_heights_ok(node.left),
        link_heights_ok(node.right),
        link_balanced(node.left),
        link_balanced(node.right),
        link_height(node.left) - link_height(node.right) == 2,
        left_bf == link_height(node.left.unwrap().left) - link_height(node.left.unwrap().right),
        left_bf >= 0,
        r.val == node.left.unwrap().val,
        r.right.is_some(),
        r.right.unwrap().right == node.right,
        r.right.unwrap().left == node.left.unwrap().right,
        r.left == node.left.unwrap().left,
        link_heights_ok(Some(r)),
    ensures
        link_balanced(Some(r)),
        link_height(Some(node)) - 1 <= link_height(Some(r)) <= link_height(Some(node)),
{
    let l = node.left.unwrap();
    let c = link_height(node.right);
    assert(node.left == Some(l));
    assert(link_balanced(Some(l)));
    assert(link_balanced(l.left) && link_balanced(l.right));
    assert(link_height(node.left) == 1 + nat_max(link_height(l.left), link_height(l.right)));
    assert(link_height(node.left) == c + 2);
    assert(link_height(l.left) == c + 1);
    assert(c <= link_height(l.right) <= c + 1);
    let rr = r.right.unwrap();
    assert(r.right == Some(rr));
    assert(link_height(r.right) == 1 + nat_max(link_height(l.right), c));
    assert(link_balanced(r.right));
    assert(link_height(Some(r)) == 1 + nat_max(c + 1, link_height(r.right)));
    assert(link_height(Some(node)) == c + 3);
    assert(link_balanced(Some(r)));
}

/// Height and balance arithmetic for the double (left-right) rotation of a
/// left-heavy node whose left child leans right.
proof fn lemma_rebalance_left_double(node: Box<Node>, new_left: Box<Node>, r: Box<Node>)
    requires
        node.left.is_some(),
        link_heights_ok(node.left),
        link_heights_ok(node.right),
        link_balanced(node.left),
        link_balanced(node.right),
        link_height(node.left) - link_height(node.right) == 2,
        link_height(node.left.unwrap().left) < link_height(node.left.unwrap().right),
        node.left.unwrap().right.is_some(),
        // how the first rotation built `new_left`
        new_left.val == node.left.unwrap().right.unwrap().val,
        new_left.left.is_some(),
        new_left.left.unwrap().val == node.left.unwrap().val,
        new_left.left.unwrap().left == node.left.unwrap().left,
        new_left.left.unwrap().right == node.left.unwrap().right.unwrap().left,
        new_left.right == node.left.unwrap().right.unwrap().right,
        link_heights_ok(Some(new_left)),
        // how the second rotation built `r`
        r.val == new_left.val,
        r.right.is_some(),
        r.right.unwrap().right == node.right,
        r.right.unwrap().left == new_left.right,
        r.left == new_left.left,
        link_heights_ok(Some(r)),
    ensures
        link_balanced(Some(r)),
        link_height(Some(node)) - 1 <= link_height(Some(r)) <= link_height(Some(node)),
{
    let l = node.left.unwrap();
    let lr = l.right.unwrap();
    let c = link_height(node.right);
    assert(node.left == Some(l));
    assert(link_balanced(Some(l)));
    assert(link_balanced(l.left) && link_balanced(l.right));
    assert(l.right == Some(lr));
    assert(link_balanced(Some(lr)));
    assert(link_balanced(lr.left) && link_balanced(lr.right));
    assert(link_height(node.left) == 1 + nat_max(link_height(l.left), link_height(l.right)));
    assert(link_height(node.left) == c + 2);
    assert(link_height(l.right) == c + 1);
    assert(link_height(l.left) == c);
    assert(link_height(l.right) == 1 + nat_max(link_height(lr.left), link_height(lr.right)));
    assert(c - 1 <= link_height(lr.left) <= c);
    assert(c - 1 <= link_height(lr.right) <= c);
    assert(nat_max(link_height(lr.left), link_height(lr.right)) == c);
    let nll = new_left.left.unwrap();
    assert(new_left.left == Some(nll));
    assert(link_height(new_left.left) == 1 + nat_max(link_height(l.left), link_height(lr.left)));
    assert(link_height(new_left.left) == c + 1);
    assert(link_balanced(new_left.left));
    assert(link_height(r.left) == c + 1);
    assert(link_balanced(r.left));
    let rr = r.right.unwrap();
    assert(r.right == Some(rr));
    assert(link_height(r.right) == 1 + nat_max(link_height(lr.right), c));
    assert(link_height(r.right) == c + 1);
    assert(link_balanced(r.right));
    assert(link_height(Some(r)) == c + 2);
    assert(link_height(Some(node)) == c + 3);
    assert(link_balanced(Some(r)));
}

/// Mirror of `lemma_rebalance_left_heavy` for a right-heavy node.
proof fn lemma_rebalance_right_heavy(node: Box<Node>, r: Box<Node>, right_bf: int)
    requires
        node.right.is_some(),
        link_heights_ok(node.left),
        link_heights_ok(node.right),
        link_balanced(node.left),
        link_balanced(node.right),
        link_height(node.left) - link_height(node.right) == -2,
        right_bf == link_height(node.right.unwrap().left) - link_height(node.right.unwrap().right),
        right_bf <= 0,
        r.val == node.right.unwrap().val,
        r.left.is_some(),
        r.left.unwrap().left == node.left,
        r.left.unwrap().right == node.right.unwrap().left,
        r.right == node.right.unwrap().right,
        link_heights_ok(Some(r)),
    ensures
        link_balanced(Some(r)),
        link_height(Some(node)) - 1 <= link_height(Some(r)) <= link_height(Some(node)),
{
    let right = node.right.unwrap();
    let c = link_height(node.left);
    assert(node.right == Some(right));
    assert(link_balanced(Some(right)));
    assert(link_balanced(right.left) && link_balanced(right.right));
    assert(link_height(node.right) == 1 + nat_max(link_height(right.left), link_height(right.right)));
    assert(link_height(node.right) == c + 2);
    assert(link_height(right.right) == c + 1);
    assert(c <= link_height(right.left) <= c + 1);
    let rl = r.left.unwrap();
    assert(r.left == Some(rl));
    assert(link_height(r.left) == 1 + nat_max(c, link_height(right.left)));
    assert(link_balanced(r.left));
    assert(link_height(Some(r)) == 1 + nat_max(link_height(r.left), c + 1));
    assert(link_height(Some(node)) == c + 3);
    assert(link_balanced(Some(r)));
}

/// Mirror of `lemma_rebalance_left_double` for a right-heavy node whose
/// right child leans left.
proof fn lemma_rebalance_right_double(node: Box<Node>, new_right: Box<Node>, r: Box<Node>)
    requires
        node.right.is_some(),
        link_heights_ok(node.left),
        link_heights_ok(node.right),
        link_balanced(node.left),
        link_balanced(node.right),
        link_height(node.left) - link_height(node.right) == -2,
        link_height(node.right.unwrap().left) > link_height(node.right.unwrap().right),
        node.right.unwrap().left.is_some(),
        // how the first rotation built `new_right`
        new_right.val == node.right.unwrap().left.unwrap().val,
        new_right.right.is_some(),
        new_right.right.unwrap().val == node.right.unwrap().val,
        new_right.right.unwrap().right == node.right.unwrap().right,
        new_right.right.unwrap().left == node.right.unwrap().left.unwrap().right,
        new_right.left == node.right.unwrap().left.unwrap().left,
        link_heights_ok(Some(new_right)),
        // how the second rotation built `r`
        r.val == new_right.val,
        r.left.is_some(),
        r.left.unwrap().left == node.left,
        r.left.unwrap().right == new_right.left,
        r.right == new_right.right,
        link_heights_ok(Some(r)),
    ensures
        link_balanced(Some(r)),
        link_height(Some(node)) - 1 <= link_height(Some(r)) <= link_height(Some(node)),
{
    let right = node.right.unwrap();
    let rl = right.left.unwrap();
    let c = link_height(node.left);
    assert(node.right == Some(right));
    assert(link_balanced(Some(right)));
    assert(link_balanced(right.left) && link_balanced(right.right));
    assert(right.left == Some(rl));
    assert(link_balanced(Some(rl)));
    assert(link_balanced(rl.left) && link_balanced(rl.right));
    assert(link_height(node.right) == 1 + nat_max(link_height(right.left), link_height(right.right)));
    assert(link_height(node.right) == c + 2);
    assert(link_height(right.left) == c + 1);
    assert(link_height(right.right) == c);
    assert(link_height(right.left) == 1 + nat_max(link_height(rl.left), link_height(rl.right)));
    assert(c - 1 <= link_height(rl.left) <= c);
    assert(c - 1 <= link_height(rl.right) <= c);
    assert(nat_max(link_height(rl.left), link_height(rl.right)) == c);
    let nrr = new_right.right.unwrap();
    assert(new_right.right == Some(nrr));
    assert(link_height(new_right.right) == 1 + nat_max(link_height(rl.right), link_height(right.right)));
    assert(link_height(new_right.right) == c + 1);
    assert(link_balanced(new_right.right));
    assert(link_height(r.right) == c + 1);
    assert(link_balanced(r.right));
    let rlf = r.left.unwrap();
    assert(r.left == Some(rlf));
    assert(link_height(r.left) == 1 + nat_max(c, link_height(rl.left)));
    assert(link_height(r.left) == c + 1);
    assert(link_balanced(r.left));
    assert(link_height(Some(r)) == c + 2);
    assert(link_height(Some(node)) == c + 3);
    assert(link_balanced(Some(r)));
}

impl View for AvlTree {
    type V = Set<u64>;

    closed spec fn view(&self) -> Set<u64> {
        link_set(self.root)
    }
}

impl AvlTree {
    /// The tree's internal invariant: binary-search-tree order, correct
    /// stored heights and the AVL balance bound at every node.  It is the
    /// type invariant: every tree value the library hands out satisfies it.
    #[verifier::type_invariant]
    pub closed spec fn well_formed(self) -> bool {
        bst_ok(self.root) && link_heights_ok(self.root) && link_balanced(self.root)
    }

    /// Every node's subtree heights differ by at most one.
    pub closed spec fn balanced(self) -> bool {
        link_balanced(self.root)
    }

    /// Every node's stored height is one plus the larger child height.
    pub closed spec fn heights_correct(self) -> bool {
        link_heights_ok(self.root)
    }

    /// The height of the tree (0 when empty).
    pub closed spec fn height(self) -> nat {
        link_height(self.root)
    }

    /// The in-order sequence of the stored values.
    pub closed spec fn in_order_seq(self) -> Seq<u64> {
        link_seq(self.root)
    }

    /// Creates an empty tree.
    pub fn new() -> (tree: Self)
        ensures
            tree@ == Set::<u64>::empty(),
            tree.height() == 0,
            tree.in_order_seq() == Seq::<u64>::empty(),
    {
        AvlTree { root: None }
    }

    /// Rebuilds the subtree `link` with `value` inserted, restoring heights
    /// and balance on the way back up, and returns the new subtree root.
    fn insert_recursive(link: Option<Box<Node>>, value: u64) -> (r: Box<Node>)
        requires
            bst_ok(link),
            link_heights_ok(link),
            link_balanced(link),
            link_height(link) <= usize::MAX - 2,
        ensures
            bst_ok(Some(r)),
            link_heights_ok(Some(r)),
            link_balanced(Some(r)),
            link_set(Some(r)) =~= link_set(link).insert(value),
            link_height(link) <= link_height(Some(r)) <= link_height(link) + 1,
            link_set(link).contains(value) ==> Some(r) == link,
        decreases link,
    {
        match link {
            None => Box::new(Node { val: value, left: None, right: None, height: 1 }),
            Some(mut node) => {
                let ghost old_node = node;
                let ghost hl = link_height(old_node.left);
                let ghost hr = link_height(old_node.right);
                proof {
                    assert(link_heights_ok(Some(old_node)));
                    assert(link_height(Some(old_node)) == 1 + nat_max(hl, hr));
                }
                if value < node.val {
                    proof {
                        assert(!link_set(old_node.right).contains(value));
                    }
                    let taken = node.left.take();
                    let new_left = Self::insert_recursive(taken, value);
                    proof {
                        assert forall|x: u64| link_set(Some(new_left)).contains(x) implies x
                            < node.val by {
                            if link_set(old_node.left).contains(x) {
                            }
                        }
                    }
                    node.left = Some(new_left);
                } else if value > node.val {
                    proof {
                        assert(!link_set(old_node.left).contains(value));
                    }
                    let taken = node.right.take();
                    let new_right = Self::insert_recursive(taken, value);
                    proof {
                        assert forall|x: u64| link_set(Some(new_right)).contains(x) implies x
                            > node.val by {
                            if link_set(old_node.right).contains(x) {
                            }
                        }
                    }
                    node.right = Some(new_right);
                }
                (&mut *node).update_height();
                let ghost mid_node = node;
                let ghost hm = link_height(Some(mid_node));
                proof {
                    assert(link_heights_ok(Some(mid_node)));
                    assert(bst_ok(Some(mid_node)));
                    assert(hl <= link_height(mid_node.left) <= hl + 1);
                    assert(hr <= link_height(mid_node.right) <= hr + 1);
                    assert(link_height(Some(old_node)) <= hm <= link_height(Some(old_node)) + 1);
                    assert(link_set(Some(mid_node)) =~= link_set(Some(old_node)).insert(value));
                }
                let r = rebalance(node);
                proof {
                    assert(link_set(Some(r)) =~= link_set(Some(old_node)).insert(value));
                    // a rotation only happens when the freshly grown child made
                    // the subtree one taller, so the result never ends shorter
                    // than the subtree was before the insertion
                    if !(-1 <= link_height(mid_node.left) - link_height(mid_node.right) <= 1) {
                        assert(hm == link_height(Some(old_node)) + 1);
                    }
                    if link_set(Some(old_node)).contains(value) {
                        assert(value == old_node.val || link_set(old_node.left).contains(value)
                            || link_set(old_node.right).contains(value));
                        assert(mid_node == old_node);
                        assert(-1 <= link_height(mid_node.left) - link_height(mid_node.right)
                            <= 1);
                        assert(r == old_node);
                    }
                }
                r
            },
        }
    }

    /// Inserts a value, restoring the balance invariant; inserting a value
    /// that is already present leaves the tree unchanged.
    ///
    /// The height bound is a machine limit: a stored height must fit in a
    /// `usize` after the insertion.
    pub fn insert(&mut self, value: u64)
        requires
            old(self).height() <= usize::MAX - 2,
        ensures
            final(self)@ == old(self)@.insert(value),
            old(self)@.contains(value) ==> *final(self) == *old(self),
            old(self).height() <= final(self).height() <= old(self).height() + 1,
    {
        proof {
            use_type_invariant(&*self);
        }
        let mut root = None;
        std::mem::swap(&mut root, &mut self.root);
        let new_root = Self::insert_recursive(root, value);
        self.root = Some(new_root);
    }

    fn check_balance(link: &Option<Box<Node>>) -> (r: bool)
        requires
            link_heights_ok(*link),
        ensures
            r == link_balanced(*link),
        decreases *link,
    {
        match link {
            None => true,
            Some(node) => {
                let left_height = height(&node.left);
                let right_height = height(&node.right);
                let ok_here = if left_height >= right_height {
                    left_height - right_height <= 1
                } else {
                    right_height - left_height <= 1
                };
                if ok_here {
                    let ok_left = Self::check_balance(&node.left);
                    let ok_right = Self::check_balance(&node.right);
                    ok_left && ok_right
                } else {
                    false
                }
            },
        }
    }

    /// Checks the balance bound at every node; on a tree of this library it
    /// always returns true, since the bound is the type invariant.
    pub fn is_balanced(&self) -> (r: bool)
        ensures
            r == self.balanced(),
            r,
    {
        proof {
            use_type_invariant(&*self);
        }
        Self::check_balance(&self.root)
    }

    fn check_heights(link: &Option<Box<Node>>) -> (r: bool)
        requires
            link_heights_ok(*link),
        ensures
            r,
        decreases *link,
    {
        match link {
            None => true,
            Some(node) => {
                let ok_left = Self::check_heights(&node.left);
                let ok_right = Self::check_heights(&node.right);
                let left_height = height(&node.left);
                let right_height = height(&node.right);
                let larger = if left_height >= right_height {
                    left_height
                } else {
                    right_height
                };
                proof {
                    assert(node.height == 1 + nat_max(
                        link_height(node.left),
                        link_height(node.right),
                    ));
                }
                let expected = 1 + larger;
                ok_left && ok_right && node.height == expected
            },
        }
    }

    /// Checks that every stored height equals one plus the larger child
    /// height; on a tree of this library it always returns true.
    pub fn verify_heights(&self) -> (r: bool)
        ensures
            r == self.heights_correct(),
            r,
    {
        proof {
            use_type_invariant(&*self);
        }
        Self::check_heights(&self.root)
    }

    /// The height of the tree (0 when empty).
    pub fn tree_height(&self) -> (h: usize)
        ensures
            h == self.height(),
    {
        proof {
            use_type_invariant(&*self);
        }
        height(&self.root)
    }

    fn in_order_helper(link: &Option<Box<Node>>, result: &mut Vec<u64>)
        ensures
            final(result)@ =~= old(result)@ + link_seq(*link),
        decreases *link,
    {
        match link {
            None => {},
            Some(node) => {
                Self::in_order_helper(&node.left, result);
                result.push(node.val);
                Self::in_order_helper(&node.right, result);
            },
        }
    }

    /// Collects the stored values in ascending order.
    pub fn in_order(&self) -> (r: Vec<u64>)
        ensures
            r@ == self.in_order_seq(),
    {
        let mut result = Vec::new();
        Self::in_order_helper(&self.root, &mut result);
        proof {
            assert(result@ =~= self.in_order_seq());
        }
        result
    }

    /// The AVL invariant: every tree the library hands out is balanced and
    /// carries correct heights (both are the type invariant, restored by
    /// `insert` after every insertion).
    pub proof fn lemma_avl_invariant(&self)
        requires
            self.well_formed(),
        ensures
            self.balanced(),
            self.heights_correct(),
    {
    }

    /// The in-order sequence of every tree is strictly sorted.
    pub proof fn lemma_in_order_sorted(&self)
        requires
            self.well_formed(),
        ensures
            crate::binary_search_tree::strictly_sorted(self.in_order_seq()),
    {
        lemma_link_seq_sorted(self.root);
    }

    /// The in-order sequence contains exactly the values of the tree's set.
    pub proof fn lemma_in_order_set(&self)
        ensures
            forall|x: u64| #[trigger] self.in_order_seq().contains(x) <==> self@.contains(x),
    {
        lemma_link_seq_set(self.root);
    }
}

} // verus!
