//! A binary min-heap of `u64` values.
//!
//! The heap is viewed as the multiset of values it stores (`q@`).  The
//! values live in an array where the parent of position `i > 0` is
//! `(i - 1) / 2`; the heap invariant says every element is at least its
//! parent, so the root is a minimum and `pop` always returns one.

use vstd::multiset::Multiset;
use vstd::prelude::*;

verus! {

/// A growable binary min-heap.
pub struct PriorityQueue {
    vals: Vec<u64>,
}

/// The parent position of a heap position.
pub open spec fn parent_index(i: int) -> int {
    (i - 1) / 2
}

/// The min-heap property: every element is at least its parent.
spec fn heap_ok(s: Seq<u64>) -> bool {
    forall|i: int| 0 < i < s.len() ==> #[trigger] s[i] >= s[parent_index(i)]
}

/// The heap property restricted to edges whose parent is at least `j`.
spec fn heap_from(s: Seq<u64>, j: int) -> bool {
    forall|i: int| 0 < i < s.len() && parent_index(i) >= j ==> #[trigger] s[i] >= s[parent_index(i)]
}

/// The heap property on all edges except those leaving position `j`.
spec fn heap_except_below(s: Seq<u64>, j: int) -> bool {
    forall|i: int| 0 < i < s.len() && parent_index(i) > j ==> #[trigger] s[i] >= s[parent_index(i)]
}

/// The heap property except that position `j` may be smaller than its
/// parent; the parent still bounds `j`'s children.
spec fn heap_except_at(s: Seq<u64>, j: int) -> bool {
    &&& (forall|i: int| 0 < i < s.len() && i != j ==> #[trigger] s[i] >= s[parent_index(i)])
    &&& (j > 0 ==> forall|i: int|
        0 < i < s.len() && parent_index(i) == j ==> #[trigger] s[i] >= s[parent_index(j)])
}


/// Every position below the root is a child of its parent position.
proof fn lemma_parent_child(i: int)
    requires
        i > 0,
    ensures
        0 <= parent_index(i) < i,
        i == 2 * parent_index(i) + 1 || i == 2 * parent_index(i) + 2,
{
    vstd::arithmetic::div_mod::lemma_fundamental_div_mod(i - 1, 2);
    vstd::arithmetic::div_mod::lemma_mod_bound(i - 1, 2);
    vstd::arithmetic::div_mod::lemma_div_pos_is_pos(i - 1, 2);
}

/// The two children of a position have it as their parent.
proof fn lemma_child_parent(j: int)
    requires
        j >= 0,
    ensures
        parent_index(2 * j + 1) == j,
        parent_index(2 * j + 2) == j,
{
    vstd::arithmetic::div_mod::lemma_fundamental_div_mod_converse_div(2 * j, 2, j, 0);
    vstd::arithmetic::div_mod::lemma_fundamental_div_mod_converse_div(2 * j + 1, 2, j, 1);
}

/// Position `k` lies in the subtree rooted at position `root`.
spec fn in_subtree(root: int, k: int) -> bool
    decreases k,
{
    if k < root {
        false
    } else if k == root {
        true
    } else {
        k > 0 && in_subtree(root, parent_index(k))
    }
}

/// A subtree member is no smaller an index than the subtree's root.
proof fn lemma_in_subtree_bounds(root: int, k: int)
    requires
        in_subtree(root, k),
    ensures
        k >= root,
    decreases k,
{
}

/// Subtree membership is transitive.
proof fn lemma_in_subtree_trans(a: int, b: int, k: int)
    requires
        in_subtree(a, b),
        in_subtree(b, k),
    ensures
        in_subtree(a, k),
    decreases k,
{
    lemma_in_subtree_bounds(a, b);
    lemma_in_subtree_bounds(b, k);
    if k != b {
        lemma_in_subtree_trans(a, b, parent_index(k));
    }
}

/// In a heap the root is a lower bound for every element.
proof fn lemma_root_min(s: Seq<u64>, i: int)
    requires
        heap_ok(s),
        0 <= i < s.len(),
    ensures
        s[0] <= s[i],
    decreases i,
{
    if i > 0 {
        lemma_parent_child(i);
        lemma_root_min(s, parent_index(i));
    }
}

/// Where all edges with parent above `j` hold, the root of any subtree
/// strictly below `j` bounds the whole subtree.
proof fn lemma_subtree_min(s: Seq<u64>, j: int, root: int, k: int)
    requires
        heap_except_below(s, j),
        root > j,
        in_subtree(root, k),
        0 <= root,
        0 <= k < s.len(),
    ensures
        s[k] >= s[root],
    decreases k,
{
    if k != root {
        lemma_parent_child(k);
        lemma_in_subtree_bounds(root, parent_index(k));
        lemma_subtree_min(s, j, root, parent_index(k));
    }
}

/// Shared premises of the `lemma_bubble_down_*` lemmas: position `j` was
/// swapped with its smaller child `m`, giving `s1`, and the heap inside
/// `m`'s subtree was then restored, giving `s2`.
spec fn bubble_down_step(s: Seq<u64>, s1: Seq<u64>, s2: Seq<u64>, j: int, m: int) -> bool {
    &&& 0 <= j < m < s.len()
    &&& s1.len() == s.len()
    &&& s2.len() == s.len()
    &&& (m == 2 * j + 1 || m == 2 * j + 2)
    &&& heap_except_below(s, j)
    &&& s[m] <= s[j]
    &&& (2 * j + 1 < s.len() ==> s[m] <= s[2 * j + 1])
    &&& (2 * j + 2 < s.len() ==> s[m] <= s[2 * j + 2])
    &&& s1 == s.update(j, s[m]).update(m, s[j])
    &&& heap_from(s2, m)
    &&& (forall|k: int| 0 <= k < s1.len() && !in_subtree(m, k) ==> s2[k] == s1[k])
    &&& (forall|k: int|
        0 <= k < s2.len() && in_subtree(m, k) ==> exists|k0: int|
            0 <= k0 < s1.len() && in_subtree(m, k0) && s2[k] == s1[k0])
}

/// Swapping positions `j` and `m` preserves every edge whose parent lies
/// below `m`, since such an edge touches neither `j` nor `m`.
proof fn lemma_swap_keeps_below(s: Seq<u64>, s1: Seq<u64>, j: int, m: int)
    requires
        0 <= j < m < s.len(),
        s1 == s.update(j, s[m]).update(m, s[j]),
        heap_except_below(s, j),
    ensures
        heap_except_below(s1, m),
    decreases 0int,
{
    assert forall|i: int|
        0 < i < s1.len() && parent_index(i) > m implies #[trigger] s1[i] >= s1[parent_index(
        i,
    )] by {
        lemma_parent_child(i);
        assert(parent_index(i) < i);
        assert(s[i] >= s[parent_index(i)]);
    }
}

/// After the step, positions outside the subtree of `j` are untouched.
proof fn lemma_bubble_down_frame(s: Seq<u64>, s1: Seq<u64>, s2: Seq<u64>, j: int, m: int)
    requires
        bubble_down_step(s, s1, s2, j, m),
    ensures
        forall|k: int| 0 <= k < s.len() && !in_subtree(j, k) ==> s2[k] == s[k],
{
    lemma_child_parent(j);
    assert(in_subtree(j, j));
    assert(in_subtree(j, m));
    assert forall|k: int| 0 <= k < s.len() && !in_subtree(j, k) implies s2[k] == s[k] by {
        if in_subtree(m, k) {
            lemma_in_subtree_trans(j, m, k);
        }
        assert(k != j && k != m);
        assert(s1[k] == s[k]);
    }
}

/// After the step, every position of `j`'s subtree holds a value the
/// subtree already held.
proof fn lemma_bubble_down_origin(s: Seq<u64>, s1: Seq<u64>, s2: Seq<u64>, j: int, m: int)
    requires
        bubble_down_step(s, s1, s2, j, m),
    ensures
        forall|k: int|
            0 <= k < s2.len() && in_subtree(j, k) ==> exists|k0: int|
                0 <= k0 < s.len() && in_subtree(j, k0) && s2[k] == s[k0],
{
    lemma_child_parent(j);
    assert(in_subtree(j, j));
    assert(in_subtree(j, m));
    assert forall|k: int| 0 <= k < s2.len() && in_subtree(j, k) implies exists|k0: int|
        0 <= k0 < s.len() && in_subtree(j, k0) && s2[k] == s[k0] by {
        if in_subtree(m, k) {
            let k1 = choose|k1: int| 0 <= k1 < s1.len() && in_subtree(m, k1) && s2[k] == s1[k1];
            lemma_in_subtree_trans(j, m, k1);
            if k1 == m {
                assert(s2[k] == s[j]);
            } else {
                lemma_in_subtree_bounds(m, k1);
                assert(s2[k] == s[k1]);
            }
        } else if k == j {
            assert(s2[j] == s1[j]);
            assert(s2[k] == s[m]);
        } else {
            assert(s2[k] == s1[k]);
            assert(s2[k] == s[k]);
        }
    }
}

/// After the step, the heap property holds on every edge from `j` down.
#[verifier::rlimit(100)]
proof fn lemma_bubble_down_heap(s: Seq<u64>, s1: Seq<u64>, s2: Seq<u64>, j: int, m: int)
    requires
        bubble_down_step(s, s1, s2, j, m),
    ensures
        heap_from(s2, j),
    decreases 0int,
{
    lemma_child_parent(j);
    assert(in_subtree(j, j));
    assert(in_subtree(j, m));
    assert forall|i: int|
        0 < i < s2.len() && parent_index(i) >= j implies #[trigger] s2[i] >= s2[parent_index(
        i,
    )] by {
        let p = parent_index(i);
        lemma_parent_child(i);
        assert(p < i);
        if p >= m {
            assert(s2[i] >= s2[p]);
        } else if p == j {
            if i == m {
                let k1 = choose|k1: int|
                    0 <= k1 < s1.len() && in_subtree(m, k1) && s2[m] == s1[k1];
                assert(s2[j] == s1[j]);
                assert(s1[j] == s[m]);
                if k1 == m {
                    assert(s2[m] == s[j]);
                } else {
                    lemma_in_subtree_bounds(m, k1);
                    assert(s1[k1] == s[k1]);
                    lemma_subtree_min(s, j, m, k1);
                    assert(s2[m] >= s[m]);
                }
            } else {
                assert(i == 2 * j + 1 || i == 2 * j + 2);
                if in_subtree(m, i) {
                    lemma_in_subtree_bounds(m, i);
                    assert(in_subtree(m, j));
                    lemma_in_subtree_bounds(m, j);
                }
                assert(!in_subtree(m, i));
                assert(s2[i] == s1[i]);
                assert(i != j && i != m);
                assert(s1[i] == s[i]);
                assert(s[i] >= s[m]);
                assert(s2[j] == s[m]);
            }
        } else {
            if i != m && in_subtree(m, i) {
                lemma_in_subtree_bounds(m, i);
                assert(in_subtree(m, p));
                lemma_in_subtree_bounds(m, p);
            }
            assert(!in_subtree(m, i) || i == m);
            if in_subtree(m, p) {
                lemma_in_subtree_bounds(m, p);
            }
            assert(i != m ==> s2[i] == s[i] && s2[p] == s[p]);
        }
    }
}

impl View for PriorityQueue {
    type V = Multiset<u64>;

    closed spec fn view(&self) -> Multiset<u64> {
        self.vals@.to_multiset()
    }
}

impl PriorityQueue {
    /// The heap's internal invariant; `new`, `from_vec`, `insert` and `pop`
    /// establish and preserve it.
    pub closed spec fn well_formed(self) -> bool {
        heap_ok(self.vals@)
    }

    /// Creates an empty heap.
    pub fn new() -> (q: Self)
        ensures
            q.well_formed(),
            q@ == Multiset::<u64>::empty(),
    {
        let q = PriorityQueue { vals: Vec::new() };
        proof {
            broadcast use vstd::seq_lib::group_to_multiset_ensures;

            assert(q.vals@.to_multiset() =~= Multiset::<u64>::empty());
        }
        q
    }

    /// Builds a heap in place from an arbitrary vector of values, sifting
    /// every non-leaf position down, deepest first.
    pub fn from_vec(values: Vec<u64>) -> (q: Self)
        ensures
            q.well_formed(),
            q@ == values@.to_multiset(),
    {
        let ghost original = values@;
        let mut q = PriorityQueue { vals: values };
        let len = q.vals.len();
        if len <= 1 {
            return q;
        }
        let non_leaf_node_index = match q.parent(len - 1) {
            Some(p) => p,
            None => 0,
        };
        let mut i: usize = non_leaf_node_index + 1;
        proof {
            assert(non_leaf_node_index as int == (len - 2) / 2);
            vstd::arithmetic::div_mod::lemma_div_pos_is_pos(len - 2, 2);
            vstd::arithmetic::div_mod::lemma_div_is_ordered(len - 2, len as int, 2);
            assert forall|k: int|
                0 < k < q.vals@.len() && parent_index(k) >= i as int implies #[trigger] q.vals@[k]
                >= q.vals@[parent_index(k)] by {
                vstd::arithmetic::div_mod::lemma_div_is_ordered(k - 1, len - 2, 2);
                assert((k - 1) / 2 <= (len - 2) / 2);
            }
        }
        while i > 0
            invariant
                i <= len,
                q.vals@.len() == len,
                q.vals@.to_multiset() == original.to_multiset(),
                heap_from(q.vals@, i as int),
            decreases i,
        {
            i = i - 1;
            q.bubble_down(i);
        }
        q
    }

    /// The parent position, or `None` for the root.
    fn parent(&self, index: usize) -> (r: Option<usize>)
        ensures
            r == (if index == 0 {
                None::<usize>
            } else {
                Some(((index - 1) / 2) as usize)
            }),
    {
        if index == 0 {
            return None;
        }
        Some((index - 1) / 2)
    }

    /// The left child position, or `None` when it falls outside the heap.
    fn left_child(&self, index: usize) -> (r: Option<usize>)
        requires
            index < self.vals@.len(),
        ensures
            r == (if 2 * index + 1 < self.vals@.len() {
                Some((2 * index + 1) as usize)
            } else {
                None::<usize>
            }),
    {
        let len = self.vals.len();
        if index < len - index - 1 {
            Some(2 * index + 1)
        } else {
            None
        }
    }

    /// The right child position, or `None` when it falls outside the heap.
    fn right_child(&self, index: usize) -> (r: Option<usize>)
        requires
            index < self.vals@.len(),
        ensures
            r == (if 2 * index + 2 < self.vals@.len() {
                Some((2 * index + 2) as usize)
            } else {
                None::<usize>
            }),
    {
        let len = self.vals.len();
        if index + 1 < len - index - 1 {
            Some(2 * index + 2)
        } else {
            None
        }
    }

    /// Swaps a too-small element with its parent until the heap property
    /// holds again.
    #[verifier::rlimit(50)]
    fn bubble_up(&mut self, index: usize)
        requires
            index < old(self).vals@.len(),
            heap_except_at(old(self).vals@, index as int),
        ensures
            heap_ok(final(self).vals@),
            final(self).vals@.to_multiset() == old(self).vals@.to_multiset(),
            final(self).vals@.len() == old(self).vals@.len(),
        decreases index,
    {
        let ghost s = self.vals@;
        if index == 0 {
            proof {
                assert forall|i: int| 0 < i < s.len() implies #[trigger] s[i] >= s[parent_index(
                    i,
                )] by {}
            }
            return ;
        }
        let parent_idx = (index - 1) / 2;
        let vi = self.vals[index];
        let vp = self.vals[parent_idx];
        if vp > vi {
            self.vals[index] = vp;
            self.vals[parent_idx] = vi;
            proof {
                let s1 = self.vals@;
                let j = index as int;
                let p = parent_idx as int;
                lemma_parent_child(j);
                if p > 0 {
                    lemma_parent_child(p);
                }
                assert(s1 =~= s.update(j, vp).update(p, vi));
                assert(s1.to_multiset() =~= s.to_multiset()) by {
                    broadcast use vstd::seq_lib::group_to_multiset_ensures;

                    assert(s.update(j, vp).to_multiset() == s.to_multiset().insert(vp).remove(
                        s[j],
                    ));
                }
                assert forall|i: int| 0 < i < s1.len() && i != p implies #[trigger] s1[i] >= s1[
                    parent_index(i)
                ] by {
                    lemma_parent_child(i);
                    if i == j {
                    } else if parent_index(i) == j {
                        assert(s[i] >= s[parent_index(j)]);
                    } else if parent_index(i) == p {
                        assert(s[i] >= s[parent_index(i)]);
                    } else {
                        assert(s[i] >= s[parent_index(i)]);
                    }
                }
                if p > 0 {
                    assert forall|i: int|
                        0 < i < s1.len() && parent_index(i) == p implies #[trigger] s1[i] >= s1[
                        parent_index(p)
                    ] by {
                        lemma_parent_child(i);
                        assert(parent_index(p) < p < j);
                        if i == j {
                            assert(s[p] >= s[parent_index(p)]);
                        } else {
                            assert(s[i] >= s[parent_index(i)]);
                            assert(s[p] >= s[parent_index(p)]);
                        }
                    }
                }
                assert(heap_except_at(s1, p));
            }
            self.bubble_up(parent_idx);
        } else {
            proof {
                assert forall|i: int| 0 < i < s.len() implies #[trigger] s[i] >= s[parent_index(
                    i,
                )] by {}
            }
        }
    }

    /// Inserts a value into the heap.
    pub fn insert(&mut self, val: u64)
        requires
            old(self).well_formed(),
        ensures
            final(self).well_formed(),
            final(self)@ == old(self)@.insert(val),
    {
        let ghost s = self.vals@;
        self.vals.push(val);
        let val_index = self.vals.len() - 1;
        proof {
            broadcast use vstd::seq_lib::group_to_multiset_ensures;

            let s1 = self.vals@;
            let j = val_index as int;
            assert forall|i: int| 0 < i < s1.len() && i != j implies #[trigger] s1[i] >= s1[
                parent_index(i)
            ] by {
                lemma_parent_child(i);
                assert(s[i] >= s[parent_index(i)]);
            }
            assert forall|i: int| 0 < i < s1.len() && parent_index(i) == j implies false by {
                lemma_parent_child(i);
                assert(parent_index(i) < i);
            }
            assert(heap_except_at(s1, j));
        }
        self.bubble_up(val_index);
    }

    /// Sifts the element at `index` down to its place, assuming every edge
    /// whose parent lies above `index` already satisfies the heap property.
    #[verifier::rlimit(100)]
    fn bubble_down(&mut self, index: usize)
        requires
            index < old(self).vals@.len(),
            heap_except_below(old(self).vals@, index as int),
        ensures
            final(self).vals@.len() == old(self).vals@.len(),
            final(self).vals@.to_multiset() == old(self).vals@.to_multiset(),
            heap_from(final(self).vals@, index as int),
            forall|k: int|
                0 <= k < old(self).vals@.len() && !in_subtree(index as int, k)
                    ==> final(self).vals@[k] == old(self).vals@[k],
            forall|k: int|
                0 <= k < final(self).vals@.len() && in_subtree(index as int, k)
                    ==> exists|k0: int|
                    0 <= k0 < old(self).vals@.len() && in_subtree(index as int, k0)
                        && final(self).vals@[k] == old(self).vals@[k0],
        decreases old(self).vals@.len() - index,
    {
        let ghost s = self.vals@;
        let ghost j = index as int;
        let len = self.vals.len();
        let mut smallest = index;
        if let Some(left_child) = self.left_child(index) {
            if self.vals[smallest] > self.vals[left_child] {
                smallest = left_child;
            }
        }
        let ghost m1 = smallest as int;
        proof {
            assert(m1 == j || m1 == 2 * j + 1);
            assert(s[m1] <= s[j]);
            assert(2 * j + 1 < len ==> s[m1] <= s[2 * j + 1]);
        }
        if let Some(right_child) = self.right_child(index) {
            if self.vals[smallest] > self.vals[right_child] {
                smallest = right_child;
            }
        }
        proof {
            let m2 = smallest as int;
            assert(m2 == m1 || m2 == 2 * j + 2);
            assert(s[m2] <= s[m1]);
            assert(s[m2] <= s[j]);
            assert(2 * j + 1 < len ==> s[m2] <= s[2 * j + 1]);
            assert(2 * j + 2 < len ==> s[m2] <= s[2 * j + 2]);
        }
        if smallest != index {
            let ghost m = smallest as int;
            let vi = self.vals[index];
            let vs = self.vals[smallest];
            self.vals[index] = vs;
            self.vals[smallest] = vi;
            proof {
                let s1 = self.vals@;
                assert(s1 =~= s.update(j, vs).update(m, vi));
                assert(s1.to_multiset() =~= s.to_multiset()) by {
                    broadcast use vstd::seq_lib::group_to_multiset_ensures;

                    assert(s.update(j, vs).to_multiset() == s.to_multiset().insert(vs).remove(
                        s[j],
                    ));
                }
                lemma_swap_keeps_below(s, s1, j, m);
            }
            self.bubble_down(smallest);
            proof {
                let s1 = s.update(j, vs).update(m, vi);
                let s2 = self.vals@;
                assert(bubble_down_step(s, s1, s2, j, m));
                lemma_bubble_down_frame(s, s1, s2, j, m);
                lemma_bubble_down_origin(s, s1, s2, j, m);
                lemma_bubble_down_heap(s, s1, s2, j, m);
            }
        } else {
            proof {
                assert forall|i: int|
                    0 < i < s.len() && parent_index(i) >= j implies #[trigger] s[i] >= s[
                    parent_index(i)
                ] by {
                    lemma_parent_child(i);
                    let p = parent_index(i);
                    if p == j {
                        assert(i == 2 * j + 1 || i == 2 * j + 2);
                    }
                }
            }
        }
    }

    /// Removes and returns a minimum of the heap, or `None` when it is
    /// empty.
    pub fn pop(&mut self) -> (r: Option<u64>)
        requires
            old(self).well_formed(),
        ensures
            final(self).well_formed(),
            old(self)@.len() == 0 ==> r.is_none() && final(self)@ == old(self)@,
            old(self)@.len() > 0 ==> (r matches Some(m) && old(self)@.contains(m) && (forall|
                x: u64,
            |
                old(self)@.contains(x) ==> m <= x) && final(self)@ == old(self)@.remove(m)),
    {
        let ghost s = self.vals@;
        if self.vals.len() <= 1 {
            let r = self.vals.pop();
            proof {
                broadcast use vstd::seq_lib::group_to_multiset_ensures;

                if s.len() == 0 {
                    assert(self.vals@ =~= s);
                } else {
                    assert(s.len() == 1);
                    assert(r == Some(s[0]));
                    assert(s.contains(s[0]));
                    assert forall|x: u64| s.to_multiset().contains(x) implies s[0] <= x by {
                        assert(s.contains(x));
                    }
                    assert(self.vals@ =~= s.remove(0));
                    assert(self.vals@.to_multiset() =~= s.to_multiset().remove(s[0]));
                }
            }
            r
        } else {
            proof {
                broadcast use vstd::seq_lib::group_to_multiset_ensures;

                assert forall|x: u64| s.to_multiset().contains(x) implies s[0] <= x by {
                    assert(s.contains(x));
                    let i = choose|i: int| 0 <= i < s.len() && s[i] == x;
                    lemma_root_min(s, i);
                }
                assert(s.contains(s[0]));
            }
            let min = self.vals.swap_remove(0);
            proof {
                broadcast use vstd::seq_lib::group_to_multiset_ensures;

                let s1 = self.vals@;
                assert(s1 =~= s.update(0, s.last()).drop_last());
                assert(s.update(0, s.last()).drop_last() =~= s.update(0, s.last()).remove(
                    s.len() - 1,
                ));
                assert(s1.to_multiset() =~= s.to_multiset().remove(s[0]));
                assert forall|i: int|
                    0 < i < s1.len() && parent_index(i) > 0 implies #[trigger] s1[i] >= s1[
                    parent_index(i)
                ] by {
                    lemma_parent_child(i);
                    assert(parent_index(i) < i);
                    assert(s1[i] == s[i]);
                    assert(s1[parent_index(i)] == s[parent_index(i)]);
                }
                assert(heap_except_below(s1, 0));
            }
            self.bubble_down(0);
            proof {
                assert(heap_ok(self.vals@));
            }
            Some(min)
        }
    }
}

} // verus!
