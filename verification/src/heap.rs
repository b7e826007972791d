//! The ring-buffer backed minimum heap.

use vstd::prelude::*;

use crate::sift::{
    left_child, lemma_sift_down_permutes, lemma_sift_up_permutes, parent, right_child, sift_down,
    sift_up, swapped,
};
use vstd::arithmetic::div_mod::lemma_fundamental_div_mod_converse;
use vstd::pervasive::VecAdditionalExecFns;

verus! {

/// A value below twice the modulus reduces by at most one subtraction.
proof fn lemma_wrap_mod(c: int, x: int)
    requires
        0 < c,
        0 <= x < 2 * c,
    ensures
        x % c == if x < c {
            x
        } else {
            x - c
        },
{
    if x < c {
        lemma_fundamental_div_mod_converse(x, c, 0, x);
    } else {
        lemma_fundamental_div_mod_converse(x, c, 1, x - c);
    }
}

/// A minimum-first priority queue: a binary heap embedded in the logical
/// index space of a circular buffer.
///
/// The buffer `data` is treated as a ring whose period is `data.len()`;
/// logical index `i` lives at physical offset `(start + i) % data.len()`.
/// Popping the minimum advances `start` instead of moving elements.
pub struct RingHeap {
    data: Vec<i64>,
    start: usize,
    end: usize,
    len: usize,
}

impl View for RingHeap {
    type V = Seq<i64>;

    /// The live elements, in logical order: the root (current minimum
    /// candidate) first.
    closed spec fn view(&self) -> Seq<i64> {
        Seq::new(
            self.len as nat,
            |i: int| self.data@[(self.start + i) % (self.data@.len() as int)],
        )
    }
}

impl RingHeap {
    /// The ring's period: the number of physical slots currently allocated.
    pub closed spec fn cap(self) -> nat {
        self.data@.len()
    }

    /// Physical offset of logical index 0.
    pub closed spec fn front(self) -> nat {
        self.start as nat
    }

    /// Physical offset one past the logical last element.
    pub closed spec fn back(self) -> nat {
        self.end as nat
    }

    /// Representation invariant: offsets stay inside the ring, the live
    /// count leaves at least one free slot, and `end` marks the slot after
    /// the logical window.
    pub closed spec fn wf(self) -> bool {
        &&& self.data@.len() <= usize::MAX / 2
        &&& if self.data@.len() == 0 {
            self.start == 0 && self.end == 0 && self.len == 0
        } else {
            &&& self.start < self.data@.len()
            &&& self.end < self.data@.len()
            &&& self.len < self.data@.len()
            &&& self.end as int == (self.start + self.len) % (self.data@.len() as int)
        }
    }

    /// Construct an empty heap.
    pub fn new() -> (h: Self)
        ensures
            h.wf(),
            h@ == Seq::<i64>::empty(),
            h.cap() == 0,
            h.front() == 0,
            h.back() == 0,
    {
        Self::with_capacity(1)
    }

    /// Construct an empty heap with room reserved for `cap` elements.
    /// The reservation is a performance hint: the ring itself starts with
    /// period 0 and grows on the first insertion.
    pub fn with_capacity(cap: usize) -> (h: Self)
        ensures
            h.wf(),
            h@ == Seq::<i64>::empty(),
            h.cap() == 0,
            h.front() == 0,
            h.back() == 0,
    {
        let h = RingHeap { data: Vec::with_capacity(cap), start: 0, end: 0, len: 0 };
        proof {
            assert(h@ =~= Seq::<i64>::empty());
        }
        h
    }

    /// Physical offset of logical index `i`.
    fn real_idx(&self, i: usize) -> (r: usize)
        requires
            self.wf(),
            i < self.cap(),
        ensures
            r as int == (self.front() + i) % (self.cap() as int),
            r < self.cap(),
    {
        proof {
            lemma_wrap_mod(self.cap() as int, self.start + i);
        }
        (self.start + i) % self.data.len()
    }

    /// Parent of logical index `i` in the implicit tree.
    fn parent_idx(i: usize) -> (r: usize)
        requires
            i >= 1,
        ensures
            r as int == parent(i as int),
            r < i,
    {
        (i - 1) / 2
    }

    /// Left child of logical index `i`.
    fn left_child_idx(i: usize) -> (r: usize)
        requires
            2 * i + 1 <= usize::MAX,
        ensures
            r as int == left_child(i as int),
    {
        1 + 2 * i
    }

    /// Right child of logical index `i`.
    fn right_child_idx(i: usize) -> (r: usize)
        requires
            2 * i + 2 <= usize::MAX,
        ensures
            r as int == right_child(i as int),
    {
        2 + 2 * i
    }

    /// Overwrite the element at logical index `i`.
    #[allow(dead_code)]
    fn set(&mut self, i: usize, x: i64)
        requires
            old(self).wf(),
            i < old(self)@.len(),
        ensures
            final(self).wf(),
            final(self)@ == old(self)@.update(i as int, x),
            final(self).cap() == old(self).cap(),
            final(self).front() == old(self).front(),
            final(self).back() == old(self).back(),
    {
        let ri = self.real_idx(i);
        self.data.set(ri, x);
        proof {
            let c = self.cap() as int;
            let s = self.start as int;
            assert forall|k: int| 0 <= k < self@.len() implies self@[k] == old(self)@.update(
                i as int,
                x,
            )[k] by {
                lemma_wrap_mod(c, s + k);
                lemma_wrap_mod(c, s + i);
            }
            assert(self@ =~= old(self)@.update(i as int, x));
        }
    }

    /// The element at logical index `i`.
    fn get(&self, i: usize) -> (r: i64)
        requires
            self.wf(),
            i < self@.len(),
        ensures
            r == self@[i as int],
    {
        let ri = self.real_idx(i);
        self.data[ri]
    }

    /// Exchange the elements at logical indices `i` and `j`.
    fn swap(&mut self, i: usize, j: usize)
        requires
            old(self).wf(),
            i < old(self)@.len(),
            j < old(self)@.len(),
        ensures
            final(self).wf(),
            final(self)@ == swapped(old(self)@, i as int, j as int),
            final(self).cap() == old(self).cap(),
            final(self).front() == old(self).front(),
            final(self).back() == old(self).back(),
            final(self)@.len() == old(self)@.len(),
    {
        let ri = self.real_idx(i);
        let rj = self.real_idx(j);
        let a = self.data[ri];
        let b = self.data[rj];
        self.data.set(ri, b);
        self.data.set(rj, a);
        proof {
            let c = self.cap() as int;
            let s = self.start as int;
            assert forall|k: int| 0 <= k < self@.len() implies self@[k] == swapped(
                old(self)@,
                i as int,
                j as int,
            )[k] by {
                lemma_wrap_mod(c, s + k);
                lemma_wrap_mod(c, s + i);
                lemma_wrap_mod(c, s + j);
            }
            assert(self@ =~= swapped(old(self)@, i as int, j as int));
        }
    }

    /// Double the ring's period, keeping the logical window intact. New
    /// slots are initialised with `x`, the value about to be inserted; those
    /// slots sit outside the logical window, so their contents are filler.
    /// If the window wraps past the physical end of the old buffer, its
    /// wrapped tail is relocated to the top of the extended buffer.
    fn grow(&mut self, x: i64)
        requires
            old(self).wf(),
            old(self).cap() <= usize::MAX / 4,
        ensures
            final(self).wf(),
            final(self)@ == old(self)@,
            final(self).cap() == if 2 * old(self).cap() > 2 {
                2 * old(self).cap()
            } else {
                2nat
            },
            final(self).back() == old(self).back(),
            final(self).front() == if old(self).front() > old(self).back() {
                old(self).cap() + old(self).front()
            } else {
                old(self).front()
            },
            final(self)@.len() == old(self)@.len(),
    {
        let old_len = self.data.len();
        let new_len = if 2 * old_len > 2 {
            2 * old_len
        } else {
            2
        };
        self.data.resize(new_len, x);
        let ghost d1 = self.data@;
        proof {
            assert forall|k: int| 0 <= k < old_len implies d1[k] == old(self).data@[k] by {
                assert(d1.subrange(0, old_len as int)[k] == d1[k]);
            }
        }
        if self.start > self.end {
            let n_to_move = old_len - self.start;
            let new_start = new_len - n_to_move;
            let mut k: usize = 0;
            while k < n_to_move
                invariant
                    old(self).wf(),
                    self.start == old(self).start,
                    self.end == old(self).end,
                    self.len == old(self).len,
                    self.start > self.end,
                    old_len == old(self).cap(),
                    old_len >= 2,
                    new_len == 2 * old_len,
                    n_to_move == old_len - self.start,
                    new_start == new_len - n_to_move,
                    k <= n_to_move,
                    self.data@.len() == new_len,
                    forall|j: int| 0 <= j < new_start ==> self.data@[j] == d1[j],
                    forall|j: int|
                        new_start + k <= j < new_len ==> self.data@[j] == d1[j],
                    forall|j: int|
                        0 <= j < k ==> #[trigger] self.data@[new_start + j] == d1[self.start
                            + j],
                    forall|j: int| 0 <= j < old_len ==> d1[j] == old(self).data@[j],
                decreases n_to_move - k,
            {
                let v = self.data[self.start + k];
                self.data.set(new_start + k, v);
                k = k + 1;
            }
            self.start = new_start;
        }
        proof {
            let c0 = old(self).cap() as int;
            let c1 = self.cap() as int;
            let s0 = old(self).start as int;
            let s1 = self.start as int;
            let e0 = old(self).end as int;
            let n = self.len as int;
            let m = c0 - s0;
            let d0 = old(self).data@;
            assert forall|i: int| 0 <= i < n implies self@[i] == old(self)@[i] by {
                assert(c0 > 0);
                lemma_wrap_mod(c0, s0 + i);
                lemma_wrap_mod(c1, s1 + i);
                lemma_wrap_mod(c0, s0 + n);
                if s0 > e0 {
                    if i < m {
                        assert(self.data@[s1 + i] == d1[s0 + i]);
                        assert(d1[s0 + i] == d0[s0 + i]);
                    } else {
                        assert(self.data@[i - m] == d1[i - m]);
                        assert(d1[i - m] == d0[i - m]);
                    }
                } else {
                    assert(d1[s0 + i] == d0[s0 + i]);
                }
            }
            assert(self@ =~= old(self)@);
            if c0 > 0 {
                lemma_wrap_mod(c0, s0 + n);
            }
            lemma_wrap_mod(c1, s1 + n);
        }
    }

    /// Append `x` at the end of the logical window, growing the ring first
    /// when fewer than two slots would stay free.
    fn push(&mut self, x: i64)
        requires
            old(self).wf(),
            old(self)@.len() + 1 >= old(self).cap() ==> old(self).cap() <= usize::MAX / 4,
        ensures
            final(self).wf(),
            final(self)@ == old(self)@.push(x),
            final(self).cap() == if old(self)@.len() + 1 >= old(self).cap() {
                if 2 * old(self).cap() > 2 {
                    2 * old(self).cap()
                } else {
                    2nat
                }
            } else {
                old(self).cap()
            },
            final(self).back() == (old(self).back() + 1) % final(self).cap(),
            final(self).front() == if old(self)@.len() + 1 >= old(self).cap()
                && old(self).front() > old(self).back() {
                old(self).cap() + old(self).front()
            } else {
                old(self).front()
            },
    {
        if self.len + 1 >= self.data.len() {
            self.grow(x);
        }
        let ghost mid = *self;
        let e = self.end;
        self.data.set(e, x);
        self.end = (self.end + 1) % self.data.len();
        self.len = self.len + 1;
        proof {
            let c = self.cap() as int;
            let s = self.start as int;
            let n = mid.len as int;
            lemma_wrap_mod(c, s + n);
            lemma_wrap_mod(c, self.start + self.len);
            lemma_wrap_mod(c, mid.end + 1);
            assert forall|i: int| 0 <= i < self@.len() implies self@[i] == mid@.push(x)[i] by {
                lemma_wrap_mod(c, s + i);
            }
            assert(self@ =~= mid@.push(x));
            assert(mid@ == old(self)@);
        }
    }

    /// The element at logical index 0 without removing it (the minimum while
    /// the window holds the min-heap shape), or nothing when the heap is
    /// empty.
    pub fn peek(&self) -> (r: Option<i64>)
        requires
            self.wf(),
        ensures
            r == (if self@.len() > 0 {
                Some(self@[0])
            } else {
                None::<i64>
            }),
    {
        if self.len > 0 {
            proof {
                lemma_wrap_mod(self.cap() as int, self.start as int);
            }
            Some(self.data[self.start])
        } else {
            None
        }
    }

    /// Logically empty the heap in constant time. The ring keeps its
    /// current period for reuse; the stored values merely become
    /// unreachable.
    pub fn clear(&mut self)
        requires
            old(self).wf(),
        ensures
            final(self).wf(),
            final(self)@ == Seq::<i64>::empty(),
            final(self).cap() == old(self).cap(),
            final(self).front() == 0,
            final(self).back() == 0,
    {
        self.start = 0;
        self.end = 0;
        self.len = 0;
        proof {
            if self.cap() > 0 {
                lemma_wrap_mod(self.cap() as int, 0);
            }
            assert(self@ =~= Seq::<i64>::empty());
        }
    }

    /// Move the element at logical index `i` up until its parent is no
    /// larger; equal values do not swap.
    fn heapify_up(&mut self, i: usize)
        requires
            old(self).wf(),
            i < old(self)@.len(),
        ensures
            final(self).wf(),
            final(self)@ == sift_up(old(self)@, i as nat),
            final(self).cap() == old(self).cap(),
            final(self).front() == old(self).front(),
            final(self).back() == old(self).back(),
            final(self)@.len() == old(self)@.len(),
        decreases i,
    {
        if i == 0 {
            return;
        }
        let p = Self::parent_idx(i);
        let pv = self.get(p);
        let iv = self.get(i);
        if pv > iv {
            self.swap(i, p);
            self.heapify_up(p);
        }
    }

    /// Move the element at logical index `i` down while a child is strictly
    /// smaller, preferring the right child when it is the strict minimum of
    /// the triple.
    fn heapify_down(&mut self, i: usize)
        requires
            old(self).wf(),
            i <= old(self)@.len(),
        ensures
            final(self).wf(),
            final(self)@ == sift_down(old(self)@, i as nat),
            final(self).cap() == old(self).cap(),
            final(self).front() == old(self).front(),
            final(self).back() == old(self).back(),
            final(self)@.len() == old(self)@.len(),
        decreases old(self)@.len() - i,
    {
        let l = Self::left_child_idx(i);
        let r = Self::right_child_idx(i);
        if i > self.len || l >= self.len {
            return;
        }
        let left_val = self.get(l);
        let this_val = self.get(i);
        if r >= self.len {
            if this_val > left_val {
                self.swap(i, l);
                self.heapify_down(l);
            }
            return;
        }
        let right_val = self.get(r);
        if left_val > right_val && this_val > right_val {
            self.swap(i, r);
            self.heapify_down(r);
        } else if right_val > left_val && this_val > left_val {
            self.swap(i, l);
            self.heapify_down(l);
        }
    }

    /// Insert `x`: append it to the logical window (growing the ring if
    /// needed, with `x` as filler for the fresh slots) and sift it up.
    pub fn insert(&mut self, x: i64)
        requires
            old(self).wf(),
            old(self)@.len() + 1 >= old(self).cap() ==> old(self).cap() <= usize::MAX / 4,
        ensures
            final(self).wf(),
            final(self)@ == sift_up(old(self)@.push(x), old(self)@.len()),
            final(self)@.len() == old(self)@.len() + 1,
            final(self)@.to_multiset() == old(self)@.to_multiset().insert(x),
            final(self).cap() == if old(self)@.len() + 1 >= old(self).cap() {
                if 2 * old(self).cap() > 2 {
                    2 * old(self).cap()
                } else {
                    2nat
                }
            } else {
                old(self).cap()
            },
            final(self).back() == (old(self).back() + 1) % final(self).cap(),
            final(self).front() == if old(self)@.len() + 1 >= old(self).cap()
                && old(self).front() > old(self).back() {
                old(self).cap() + old(self).front()
            } else {
                old(self).front()
            },
    {
        self.push(x);
        proof {
            assert(self.len as nat == self@.len());
        }
        let idx = self.len - 1;
        self.heapify_up(idx);
        proof {
            broadcast use vstd::seq_lib::to_multiset_build;

            lemma_sift_up_permutes(old(self)@.push(x), old(self)@.len());
        }
    }

    /// Remove and return the element at logical index 0, or nothing when
    /// the heap is empty. The root's slot is only logically vacated: `start`
    /// advances by one ring slot, the remaining window shifts down one
    /// logical index (re-parenting the implicit tree), and the new root is
    /// sifted down. When the window holds the min-heap shape, the returned
    /// element is a minimal live element (`sift::lemma_heap_root_min`); the
    /// shift and the strict sift comparisons do not always re-establish that
    /// shape for later pops.
    pub fn pop(&mut self) -> (r: Option<i64>)
        requires
            old(self).wf(),
        ensures
            final(self).wf(),
            r == (if old(self)@.len() > 0 {
                Some(old(self)@[0])
            } else {
                None::<i64>
            }),
            old(self)@.len() == 0 ==> *final(self) == *old(self),
            old(self)@.len() > 0 ==> {
                &&& final(self)@ == sift_down(
                    old(self)@.subrange(1, old(self)@.len() as int),
                    0,
                )
                &&& final(self)@.len() == old(self)@.len() - 1
                &&& final(self)@.to_multiset() == old(self)@.to_multiset().remove(
                    old(self)@[0],
                )
                &&& final(self).cap() == old(self).cap()
                &&& final(self).front() == (old(self).front() + 1) % old(self).cap()
                &&& final(self).back() == old(self).back()
            },
    {
        if self.len > 0 {
            proof {
                lemma_wrap_mod(self.cap() as int, self.start as int);
            }
            let x = self.data[self.start];
            self.start = (self.start + 1) % self.data.len();
            self.len = self.len - 1;
            proof {
                let c = self.cap() as int;
                let s0 = old(self).start as int;
                lemma_wrap_mod(c, s0 + 1);
                lemma_wrap_mod(c, s0 + old(self).len);
                lemma_wrap_mod(c, self.start + self.len);
                assert forall|i: int| 0 <= i < self@.len() implies self@[i] == old(
                    self,
                )@.subrange(1, old(self)@.len() as int)[i] by {
                    lemma_wrap_mod(c, self.start + i);
                    lemma_wrap_mod(c, s0 + 1 + i);
                }
                assert(self@ =~= old(self)@.subrange(1, old(self)@.len() as int));
            }
            self.heapify_down(0);
            proof {
                broadcast use vstd::seq_lib::to_multiset_remove;

                let v0 = old(self)@;
                let tail = v0.subrange(1, v0.len() as int);
                lemma_sift_down_permutes(tail, 0);
                assert(tail =~= v0.remove(0));
            }
            Some(x)
        } else {
            None
        }
    }

    /// Number of live elements.
    pub fn len(&self) -> (r: usize)
        ensures
            r == self@.len(),
    {
        self.len
    }

    /// The ring's period: how many physical slots the buffer holds.
    pub fn capacity(&self) -> (r: usize)
        ensures
            r as nat == self.cap(),
    {
        self.data.len()
    }

    /// Physical offset of logical index 0.
    pub fn start_offset(&self) -> (r: usize)
        ensures
            r as nat == self.front(),
    {
        self.start
    }

    /// Physical offset one past the logical last element.
    pub fn end_offset(&self) -> (r: usize)
        ensures
            r as nat == self.back(),
    {
        self.end
    }
}

} // verus!
