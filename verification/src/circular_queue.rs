//! A growable circular (ring buffer) FIFO queue.
//!
//! Elements live in a fixed block of slots between `head` (the front) and
//! `tail` (one past the back), wrapping around at the capacity; a flag
//! distinguishes the empty queue from the full one, where `head == tail`
//! as well.  When the queue is full, `grow` doubles the capacity and moves
//! the elements to the front of a fresh block.  The queue is viewed as the
//! sequence of its elements, front first.

use vstd::prelude::*;

verus! {

/// A growable ring buffer.
pub struct CircularQueue<T> {
    vals: Vec<Option<T>>,
    head: usize,
    tail: usize,
    is_empty: bool,
}

/// The values of the slots `from..to`, in order.
spec fn seg<T>(s: Seq<Option<T>>, from: int, to: int) -> Seq<T> {
    Seq::new((to - from) as nat, |k: int| s[from + k].unwrap())
}

impl<T> View for CircularQueue<T> {
    type V = Seq<T>;

    closed spec fn view(&self) -> Seq<T> {
        if self.is_empty {
            Seq::empty()
        } else if self.head < self.tail {
            seg(self.vals@, self.head as int, self.tail as int)
        } else {
            seg(self.vals@, self.head as int, self.vals@.len() as int) + seg(
                self.vals@,
                0,
                self.tail as int,
            )
        }
    }
}

impl<T> CircularQueue<T> {
    /// The capacity: the number of slots the queue currently owns.
    pub closed spec fn capacity_spec(self) -> nat {
        self.vals@.len()
    }

    /// Whether slot `i` currently holds an element of the queue.
    spec fn occupied(self, i: int) -> bool {
        &&& !self.is_empty
        &&& (if self.head < self.tail {
            self.head <= i < self.tail
        } else {
            self.head <= i < self.vals@.len() || 0 <= i < self.tail
        })
    }

    /// The queue's internal invariant: `head` and `tail` are in range,
    /// the empty flag pins them together, and every occupied slot holds a
    /// value.
    pub closed spec fn well_formed(self) -> bool {
        &&& (self.vals@.len() == 0 ==> self.head == 0 && self.tail == 0 && self.is_empty)
        &&& (self.vals@.len() > 0 ==> self.head < self.vals@.len() && self.tail
            < self.vals@.len())
        &&& (self.is_empty ==> self.head == self.tail)
        &&& (forall|i: int| self.occupied(i) ==> self.vals@[i].is_some())
    }

    /// Creates an empty queue with no slots; the first enqueue allocates.
    pub fn new() -> (q: Self)
        ensures
            q.well_formed(),
            q@ == Seq::<T>::empty(),
            q.capacity_spec() == 0,
    {
        CircularQueue { vals: Vec::new(), head: 0, tail: 0, is_empty: true }
    }

    /// Whether the queue has filled all its slots.
    pub fn is_full(&self) -> (r: bool)
        requires
            self.well_formed(),
        ensures
            r == (self@.len() > 0 && self@.len() == self.capacity_spec()),
    {
        self.head == self.tail && !self.is_empty
    }

    /// Whether the queue holds no element.
    pub fn is_empty(&self) -> (r: bool)
        requires
            self.well_formed(),
        ensures
            r == (self@.len() == 0),
    {
        self.is_empty
    }

    /// The number of slots the queue currently owns.
    pub fn capacity(&self) -> (n: usize)
        ensures
            n == self.capacity_spec(),
    {
        self.vals.len()
    }

    /// The number of stored elements.
    pub fn len(&self) -> (n: usize)
        requires
            self.well_formed(),
        ensures
            n == self@.len(),
    {
        if self.is_empty {
            0
        } else if self.head == self.tail {
            self.vals.len()
        } else if self.tail > self.head {
            self.tail - self.head
        } else {
            self.vals.len() - self.head + self.tail
        }
    }

    /// Moves the elements to the front of a block twice the size (or of
    /// four slots, for a queue that owns none yet).
    fn grow_inner(&mut self)
        requires
            old(self).well_formed(),
            old(self).capacity_spec() * 2 <= usize::MAX,
        ensures
            final(self).well_formed(),
            final(self)@ == old(self)@,
            final(self).capacity_spec() == (if old(self).capacity_spec() == 0 {
                4nat
            } else {
                2 * old(self).capacity_spec()
            }),
            final(self)@.len() < final(self).capacity_spec(),
    {
        let ghost old_self = *self;
        let len = self.len();
        let old_capacity = self.vals.len();
        let new_capacity = if old_capacity == 0 {
            4
        } else {
            old_capacity * 2
        };
        let mut new_vals: Vec<Option<T>> = Vec::new();
        while new_vals.len() < new_capacity
            invariant
                new_vals@.len() <= new_capacity,
            decreases new_capacity - new_vals@.len(),
        {
            new_vals.push(None);
        }
        if self.is_empty {
            self.vals = new_vals;
            proof {
                assert(self@ =~= old_self@);
            }
            return ;
        }
        if self.head < self.tail {
            let mut i: usize = 0;
            let mut j: usize = self.head;
            while j < self.tail
                invariant
                    old_self.well_formed(),
                    !old_self.is_empty,
                    old_self.head < old_self.tail,
                    self.head == old_self.head,
                    self.tail == old_self.tail,
                    self.is_empty == old_self.is_empty,
                    old_self.tail <= old_self.vals@.len(),
                    self.vals@.len() == old_self.vals@.len(),
                    old_self.vals@.len() <= new_capacity,
                    old_self.head <= j <= old_self.tail,
                    i == j - old_self.head,
                    new_vals@.len() == new_capacity,
                    forall|l: int|
                        j <= l < old_self.vals@.len() ==> self.vals@[l] == old_self.vals@[l],
                    forall|k: int|
                        0 <= k < i ==> new_vals@[k] == old_self.vals@[old_self.head + k],
                decreases old_self.tail - j,
            {
                proof {
                    assert(old_self.occupied(j as int));
                }
                let val = self.vals[j].take();
                new_vals[i] = val;
                i = i + 1;
                j = j + 1;
            }
            self.head = 0;
            self.vals = new_vals;
            self.tail = len;
            proof {
                assert(old_self@ == seg(
                    old_self.vals@,
                    old_self.head as int,
                    old_self.tail as int,
                ));
                assert(len == old_self@.len());
                assert(self@ =~= old_self@);
                assert forall|k: int| self.occupied(k) implies self.vals@[k].is_some() by {
                    assert(new_vals@[k] == old_self.vals@[old_self.head + k]);
                    assert(old_self.occupied(old_self.head + k));
                }
            }
        } else {
            let capacity = self.vals.len();
            let mut i: usize = 0;
            let mut j: usize = self.head;
            while j < capacity
                invariant
                    old_self.well_formed(),
                    !old_self.is_empty,
                    old_self.tail <= old_self.head,
                    capacity == old_self.vals@.len(),
                    0 < capacity,
                    old_self.head < capacity,
                    old_self.tail < capacity,
                    self.head == old_self.head,
                    self.tail == old_self.tail,
                    self.is_empty == old_self.is_empty,
                    self.vals@.len() == old_self.vals@.len(),
                    capacity + capacity <= new_capacity + old_self.head,
                    forall|l: int| 0 <= l < old_self.tail ==> self.vals@[l] == old_self.vals@[l],
                    old_self.head <= j <= capacity,
                    i == j - old_self.head,
                    new_vals@.len() == new_capacity,
                    forall|l: int| j <= l < capacity ==> self.vals@[l] == old_self.vals@[l],
                    forall|k: int|
                        0 <= k < i ==> new_vals@[k] == old_self.vals@[old_self.head + k],
                decreases capacity - j,
            {
                proof {
                    assert(old_self.occupied(j as int));
                }
                let val = self.vals[j].take();
                new_vals[i] = val;
                i = i + 1;
                j = j + 1;
            }
            let ghost part = (old_self.vals@.len() - old_self.head) as int;
            let mut j2: usize = 0;
            while j2 < self.tail
                invariant
                    old_self.well_formed(),
                    !old_self.is_empty,
                    old_self.tail <= old_self.head,
                    capacity == old_self.vals@.len(),
                    0 < capacity,
                    old_self.head < capacity,
                    old_self.tail < capacity,
                    self.head == old_self.head,
                    self.tail == old_self.tail,
                    self.is_empty == old_self.is_empty,
                    self.vals@.len() == old_self.vals@.len(),
                    part == capacity - old_self.head,
                    capacity + capacity <= new_capacity + old_self.head,
                    forall|l: int| j2 <= l < old_self.tail ==> self.vals@[l] == old_self.vals@[l],
                    0 <= j2 <= old_self.tail,
                    i == part + j2,
                    new_vals@.len() == new_capacity,
                    forall|k: int|
                        0 <= k < part ==> new_vals@[k] == old_self.vals@[old_self.head + k],
                    forall|k: int|
                        0 <= k < j2 ==> new_vals@[part + k] == old_self.vals@[k],
                decreases self.tail - j2,
            {
                proof {
                    assert(old_self.occupied(j2 as int));
                }
                let val = self.vals[j2].take();
                new_vals[i] = val;
                i = i + 1;
                j2 = j2 + 1;
            }
            self.head = 0;
            self.vals = new_vals;
            self.tail = len;
            proof {
                assert(old_self@ == seg(old_self.vals@, old_self.head as int, capacity as int)
                    + seg(old_self.vals@, 0, old_self.tail as int));
                assert(len == old_self@.len());
                assert(self@ =~= old_self@);
                assert forall|k: int| self.occupied(k) implies self.vals@[k].is_some() by {
                    if k < part {
                        assert(new_vals@[k] == old_self.vals@[old_self.head + k]);
                        assert(old_self.occupied(old_self.head + k));
                    } else {
                        assert(new_vals@[k] == old_self.vals@[k - part]);
                        assert(old_self.occupied(k - part));
                    }
                }
            }
        }
    }

    /// Doubles the capacity (or gives a fresh queue four slots), keeping
    /// the stored elements in order.
    ///
    /// The capacity bound is a machine limit: the doubled capacity must
    /// fit in a `usize`.
    pub fn grow(&mut self)
        requires
            old(self).well_formed(),
            old(self).capacity_spec() * 2 <= usize::MAX,
        ensures
            final(self).well_formed(),
            final(self)@ == old(self)@,
            final(self).capacity_spec() == (if old(self).capacity_spec() == 0 {
                4nat
            } else {
                2 * old(self).capacity_spec()
            }),
            final(self)@.len() < final(self).capacity_spec(),
    {
        self.grow_inner()
    }

    /// Appends a value at the back of the queue, growing it when full.
    ///
    /// The length bound is a machine limit: the doubled capacity must fit
    /// in a `usize`.
    pub fn enqueue(&mut self, val: T)
        requires
            old(self).well_formed(),
            old(self).capacity_spec() * 2 <= usize::MAX,
        ensures
            final(self).well_formed(),
            final(self)@ == old(self)@.push(val),
            final(self).capacity_spec() == (if old(self).capacity_spec() == 0 {
                4nat
            } else if old(self)@.len() == old(self).capacity_spec() {
                2 * old(self).capacity_spec()
            } else {
                old(self).capacity_spec()
            }),
    {
        if self.is_full() || self.capacity() == 0 {
            self.grow_inner();
        }
        let ghost mid = *self;
        proof {
            assert(mid.well_formed());
            assert(mid@.len() < mid.vals@.len());
            assert(mid.vals@.len() > 0);
            assert(mid.tail < mid.vals@.len());
            assert(!mid.occupied(mid.tail as int));
        }
        let tail = self.tail;
        self.vals[tail] = Some(val);
        self.tail = (tail + 1) % self.vals.len();
        self.is_empty = false;
        proof {
            let cap = mid.vals@.len();
            if tail + 1 == cap {
                assert((tail + 1) as int % cap as int == 0) by {
                    vstd::arithmetic::div_mod::lemma_mod_self_0(cap as int);
                }
                assert(self.tail == 0);
            } else {
                assert((tail + 1) as int % cap as int == tail + 1) by {
                    vstd::arithmetic::div_mod::lemma_small_mod((tail + 1) as nat, cap as nat);
                }
                assert(self.tail == tail + 1);
            }
            if mid.is_empty {
                assert(mid.head == mid.tail);
                assert(mid@ =~= Seq::<T>::empty());
                assert(self@ =~= mid@.push(val));
            } else if mid.head < mid.tail {
                assert(mid@.len() == mid.tail - mid.head);
                assert(self@ =~= mid@.push(val));
            } else {
                assert(mid.tail < mid.head);
                assert(self@ =~= mid@.push(val));
            }
            assert forall|k: int| self.occupied(k) implies self.vals@[k].is_some() by {
                if k != tail as int {
                    assert(mid.occupied(k));
                }
            }
        }
    }

    /// Removes and returns the front of the queue, or `None` when it is
    /// empty.
    pub fn dequeue(&mut self) -> (r: Option<T>)
        requires
            old(self).well_formed(),
        ensures
            final(self).well_formed(),
            old(self)@.len() == 0 ==> r.is_none() && final(self)@ == old(self)@,
            old(self)@.len() > 0 ==> (r matches Some(v) && v == old(self)@[0] && final(self)@
                == old(self)@.drop_first()),
    {
        if self.is_empty {
            return None;
        }
        let head = self.head;
        proof {
            assert(old(self).well_formed());
            assert(old(self).vals@.len() > 0);
            assert(head < old(self).vals@.len());
            assert(old(self).occupied(head as int));
            assert(old(self)@.len() > 0);
        }
        let val = self.vals[head].take();
        let cap_now = self.vals.len();
        proof {
            assert(self.vals@.len() == old(self).vals@.len());
            assert(head < cap_now);
        }
        self.head = (head + 1) % cap_now;
        if self.head == self.tail {
            self.is_empty = true;
        }
        proof {
            let o = *old(self);
            let cap = o.vals@.len();
            if head + 1 == cap {
                assert((head + 1) as int % cap as int == 0) by {
                    vstd::arithmetic::div_mod::lemma_mod_self_0(cap as int);
                }
                assert(self.head == 0);
            } else {
                assert((head + 1) as int % cap as int == head + 1) by {
                    vstd::arithmetic::div_mod::lemma_small_mod((head + 1) as nat, cap as nat);
                }
                assert(self.head == head + 1);
            }
            if o.head < o.tail {
                assert(o@.len() == o.tail - o.head);
            } else {
                assert(o@.len() == cap - o.head + o.tail);
            }
            assert(o@[0] == o.vals@[head as int].unwrap());
            assert(val == Some(o@[0]));
            assert(self@ =~= o@.drop_first());
            assert forall|k: int| self.occupied(k) implies self.vals@[k].is_some() by {
                assert(k != head as int);
                assert(o.occupied(k));
            }
        }
        Some(val.unwrap())
    }

    /// Returns the front of the queue without removing it.
    pub fn peek(&self) -> (r: Option<&T>)
        requires
            self.well_formed(),
        ensures
            self@.len() == 0 ==> r.is_none(),
            self@.len() > 0 ==> (r matches Some(v) && *v == self@[0]),
    {
        if self.is_empty {
            return None;
        }
        proof {
            assert(self.occupied(self.head as int));
        }
        let val_ref = self.vals[self.head].as_ref().unwrap();
        Some(val_ref)
    }
}

} // verus!
