//! A plain binary tree of characters with two renderings.
//!
//! `traverse` renders the in-order walk, each value followed by a space;
//! `show_tree` renders the tree's nesting, each node as its value followed
//! by its children in parentheses.  Both return the characters to print,
//! so a caller owns the actual output.

use vstd::prelude::*;

verus! {

/// A node of the tree, holding one character and two optional children.
pub struct Node {
    val: char,
    left: Option<Box<Node>>,
    right: Option<Box<Node>>,
}

/// A binary tree of characters.
pub struct BinaryTree {
    root: Option<Box<Node>>,
}

/// The in-order rendering of a subtree: every value followed by a space.
spec fn in_order_chars(link: Option<Box<Node>>) -> Seq<char>
    decreases link,
{
    match link {
        None => Seq::empty(),
        Some(node) => in_order_chars(node.left) + seq![node.val, ' '] + in_order_chars(node.right),
    }
}

/// The nested rendering of a subtree: the value, then both children's
/// renderings in parentheses.
spec fn nested_chars(link: Option<Box<Node>>) -> Seq<char>
    decreases link,
{
    match link {
        None => Seq::empty(),
        Some(node) => seq![node.val, '('] + nested_chars(node.left) + nested_chars(node.right)
            + seq![')'],
    }
}

impl Node {
    /// The in-order rendering of the subtree below this node.
    pub closed spec fn in_order_rendering(self) -> Seq<char> {
        in_order_chars(Some(Box::new(self)))
    }

    /// The nested rendering of the subtree below this node.
    pub closed spec fn nested_rendering(self) -> Seq<char> {
        nested_chars(Some(Box::new(self)))
    }

    /// Builds a node from a value and two optional subtrees.
    pub fn new(val: char, left: Option<Node>, right: Option<Node>) -> (node: Node)
        ensures
            node.in_order_rendering() == (match left {
                Some(l) => l.in_order_rendering(),
                None => Seq::<char>::empty(),
            }) + seq![val, ' '] + (match right {
                Some(r) => r.in_order_rendering(),
                None => Seq::<char>::empty(),
            }),
            node.nested_rendering() == seq![val, '('] + (match left {
                Some(l) => l.nested_rendering(),
                None => Seq::<char>::empty(),
            }) + (match right {
                Some(r) => r.nested_rendering(),
                None => Seq::<char>::empty(),
            }) + seq![')'],
    {
        let node = Node {
            val,
            left: match left {
                Some(l) => Some(Box::new(l)),
                None => None,
            },
            right: match right {
                Some(r) => Some(Box::new(r)),
                None => None,
            },
        };
        proof {
            assert(node.in_order_rendering() =~= in_order_chars(node.left) + seq![val, ' ']
                + in_order_chars(node.right));
            assert(node.nested_rendering() =~= seq![val, '('] + nested_chars(node.left)
                + nested_chars(node.right) + seq![')']);
        }
        node
    }
}

impl BinaryTree {
    /// The in-order rendering of the whole tree.
    pub closed spec fn in_order_rendering(self) -> Seq<char> {
        in_order_chars(self.root)
    }

    /// The nested rendering of the whole tree.
    pub closed spec fn nested_rendering(self) -> Seq<char> {
        nested_chars(self.root)
    }

    /// Creates an empty tree.
    pub fn new() -> (tree: Self)
        ensures
            tree.in_order_rendering() == Seq::<char>::empty(),
            tree.nested_rendering() == Seq::<char>::empty(),
    {
        BinaryTree { root: None }
    }

    /// Builds a tree from a root node.
    pub fn from_root(root: Node) -> (tree: Self)
        ensures
            tree.in_order_rendering() == root.in_order_rendering(),
            tree.nested_rendering() == root.nested_rendering(),
    {
        let tree = BinaryTree { root: Some(Box::new(root)) };
        tree
    }

    fn traverse_recursive(link: &Option<Box<Node>>, out: &mut Vec<char>)
        ensures
            final(out)@ =~= old(out)@ + in_order_chars(*link),
        decreases *link,
    {
        match link {
            None => {},
            Some(node) => {
                Self::traverse_recursive(&node.left, out);
                out.push(node.val);
                out.push(' ');
                Self::traverse_recursive(&node.right, out);
            },
        }
    }

    /// Renders the in-order walk of the tree, each value followed by a
    /// space.
    pub fn traverse(&self) -> (r: Vec<char>)
        ensures
            r@ == self.in_order_rendering(),
    {
        let mut out: Vec<char> = Vec::new();
        Self::traverse_recursive(&self.root, &mut out);
        proof {
            assert(out@ =~= self.in_order_rendering());
        }
        out
    }

    fn show_tree_recursive(link: &Option<Box<Node>>, out: &mut Vec<char>)
        ensures
            final(out)@ =~= old(out)@ + nested_chars(*link),
        decreases *link,
    {
        match link {
            None => {},
            Some(node) => {
                out.push(node.val);
                out.push('(');
                Self::show_tree_recursive(&node.left, out);
                Self::show_tree_recursive(&node.right, out);
                out.push(')');
            },
        }
    }

    /// Renders the nesting of the tree, each node as its value followed by
    /// its children in parentheses.
    pub fn show_tree(&self) -> (r: Vec<char>)
        ensures
            r@ == self.nested_rendering(),
    {
        let mut out: Vec<char> = Vec::new();
        Self::show_tree_recursive(&self.root, &mut out);
        proof {
            assert(out@ =~= self.nested_rendering());
        }
        out
    }
}

} // verus!
