//! Mathematical model of the heap maintenance steps.
//!
//! The ring buffer's live elements form a sequence indexed by logical
//! position; the functions here describe, over plain sequences, exactly what
//! the sift operations do and what the binary min-heap shape demands.

use vstd::prelude::*;

verus! {

/// Parent of logical index `i` in the implicit binary tree.
pub open spec fn parent(i: int) -> int {
    (i - 1) / 2
}

/// Left child of logical index `i`.
pub open spec fn left_child(i: int) -> int {
    2 * i + 1
}

/// Right child of logical index `i`.
pub open spec fn right_child(i: int) -> int {
    2 * i + 2
}

/// `v` with the entries at `i` and `j` exchanged.
pub open spec fn swapped(v: Seq<i64>, i: int, j: int) -> Seq<i64> {
    v.update(i, v[j]).update(j, v[i])
}

/// The binary min-heap shape over a sequence: every entry other than the
/// root is at least its parent.
pub open spec fn is_min_heap(v: Seq<i64>) -> bool {
    forall|c: int| 1 <= c < v.len() ==> v[parent(c)] <= #[trigger] v[c]
}

/// Result of sifting the entry at `i` up toward the root: while the parent
/// is strictly larger, exchange the two and continue from the parent.
pub open spec fn sift_up(v: Seq<i64>, i: nat) -> Seq<i64>
    decreases i,
{
    if i == 0 || i >= v.len() {
        v
    } else {
        let p = parent(i as int);
        if v[p] > v[i as int] {
            sift_up(swapped(v, i as int, p), p as nat)
        } else {
            v
        }
    }
}

/// Result of sifting the entry at `i` down toward the leaves. With a single
/// child, exchange when the entry is strictly larger than the child; with
/// two children, exchange with the right child when it is the strict minimum
/// of the triple, otherwise with the left child when that one is, and stop
/// when neither strict comparison holds.
///
/// The strict comparisons are deliberate and kept exactly as stated: when
/// both children hold equal values, no exchange happens even if the current
/// entry is larger than both, so this step alone does not always restore the
/// min-heap shape. Sequences of pops therefore follow this policy rather
/// than a fully sorted order.
pub open spec fn sift_down(v: Seq<i64>, i: nat) -> Seq<i64>
    decreases v.len() - i,
{
    let l = left_child(i as int);
    let r = right_child(i as int);
    if i > v.len() || l >= v.len() {
        v
    } else if r >= v.len() {
        if v[i as int] > v[l] {
            sift_down(swapped(v, i as int, l), l as nat)
        } else {
            v
        }
    } else {
        if v[l] > v[r] && v[i as int] > v[r] {
            sift_down(swapped(v, i as int, r), r as nat)
        } else if v[r] > v[l] && v[i as int] > v[l] {
            sift_down(swapped(v, i as int, l), l as nat)
        } else {
            v
        }
    }
}

/// Every index with a parent is one of that parent's two children.
proof fn lemma_parent_child(c: int)
    requires
        1 <= c,
    ensures
        0 <= parent(c) < c,
        left_child(parent(c)) == c || right_child(parent(c)) == c,
{
    let p = parent(c);
    assert(c - 1 == 2 * p + (c - 1) % 2) by {
        vstd::arithmetic::div_mod::lemma_fundamental_div_mod(c - 1, 2);
    }
}

/// Exchanging two entries leaves the multiset of entries unchanged.
pub proof fn lemma_swapped_permutes(v: Seq<i64>, i: int, j: int)
    requires
        0 <= i < v.len(),
        0 <= j < v.len(),
    ensures
        swapped(v, i, j).len() == v.len(),
        swapped(v, i, j).to_multiset() == v.to_multiset(),
{
    broadcast use vstd::seq_lib::group_to_multiset_ensures;
    broadcast use vstd::seq_lib::to_multiset_update;
    broadcast use vstd::multiset::group_multiset_axioms;

    let s1 = v.update(i, v[j]);
    assert(v.contains(v[i]));
    assert(s1.contains(s1[j]));
    assert(swapped(v, i, j).to_multiset() =~= v.to_multiset());
}

/// Sifting up only rearranges entries: the multiset is unchanged.
pub proof fn lemma_sift_up_permutes(v: Seq<i64>, i: nat)
    ensures
        sift_up(v, i).len() == v.len(),
        sift_up(v, i).to_multiset() == v.to_multiset(),
    decreases i,
{
    if i == 0 || i >= v.len() {
    } else {
        let p = parent(i as int);
        if v[p] > v[i as int] {
            lemma_parent_child(i as int);
            lemma_swapped_permutes(v, i as int, p);
            lemma_sift_up_permutes(swapped(v, i as int, p), p as nat);
        }
    }
}

/// Sifting down only rearranges entries: the multiset is unchanged.
pub proof fn lemma_sift_down_permutes(v: Seq<i64>, i: nat)
    ensures
        sift_down(v, i).len() == v.len(),
        sift_down(v, i).to_multiset() == v.to_multiset(),
    decreases v.len() - i,
{
    let l = left_child(i as int);
    let r = right_child(i as int);
    if i > v.len() || l >= v.len() {
    } else if r >= v.len() {
        if v[i as int] > v[l] {
            lemma_swapped_permutes(v, i as int, l);
            lemma_sift_down_permutes(swapped(v, i as int, l), l as nat);
        }
    } else {
        if v[l] > v[r] && v[i as int] > v[r] {
            lemma_swapped_permutes(v, i as int, r);
            lemma_sift_down_permutes(swapped(v, i as int, r), r as nat);
        } else if v[r] > v[l] && v[i as int] > v[l] {
            lemma_swapped_permutes(v, i as int, l);
            lemma_sift_down_permutes(swapped(v, i as int, l), l as nat);
        }
    }
}

proof fn lemma_root_le(v: Seq<i64>, i: int)
    requires
        is_min_heap(v),
        0 <= i < v.len(),
    ensures
        v[0] <= v[i],
    decreases i,
{
    if i > 0 {
        lemma_parent_child(i);
        lemma_root_le(v, parent(i));
    }
}

/// In a sequence with the min-heap shape, the root is a minimal element:
/// popping a heap-shaped state returns a value no larger than any live one.
pub proof fn lemma_heap_root_min(v: Seq<i64>)
    requires
        is_min_heap(v),
        v.len() > 0,
    ensures
        forall|i: int| 0 <= i < v.len() ==> v[0] <= #[trigger] v[i],
{
    assert forall|i: int| 0 <= i < v.len() implies v[0] <= #[trigger] v[i] by {
        lemma_root_le(v, i);
    }
}

/// The min-heap shape read at one node: a node is no larger than either of
/// its children inside the live range.
pub proof fn lemma_heap_children(v: Seq<i64>, i: int)
    requires
        is_min_heap(v),
        0 <= i < v.len(),
    ensures
        left_child(i) < v.len() ==> v[i] <= v[left_child(i)],
        right_child(i) < v.len() ==> v[i] <= v[right_child(i)],
{
    if left_child(i) < v.len() {
        lemma_parent_child(left_child(i));
    }
    if right_child(i) < v.len() {
        lemma_parent_child(right_child(i));
    }
}

/// All parent edges hold except possibly the one into `i`, and the parent
/// of `i` is no larger than the children of `i`. This is the state sift-up
/// walks through.
pub open spec fn heap_except_up(v: Seq<i64>, i: int) -> bool {
    &&& forall|c: int| 1 <= c < v.len() && c != i ==> v[parent(c)] <= #[trigger] v[c]
    &&& (1 <= i ==> forall|c: int|
        1 <= c < v.len() && parent(c) == i ==> v[parent(i)] <= #[trigger] v[c])
}

/// Sifting up from the one unsettled index restores the min-heap shape.
pub proof fn lemma_sift_up_heap(v: Seq<i64>, i: int)
    requires
        heap_except_up(v, i),
        0 <= i < v.len(),
    ensures
        is_min_heap(sift_up(v, i as nat)),
    decreases i,
{
    if i == 0 {
        assert(is_min_heap(v));
    } else {
        let p = parent(i);
        lemma_parent_child(i);
        if v[p] > v[i] {
            let w = swapped(v, i, p);
            assert forall|c: int| 1 <= c < w.len() && c != p implies w[parent(c)] <= #[trigger] w[c] by {
                lemma_parent_child(c);
                if c != i && parent(c) == i {
                    lemma_parent_child(i);
                }
            }
            if p >= 1 {
                assert forall|c: int|
                    1 <= c < w.len() && parent(c) == p implies w[parent(p)] <= #[trigger] w[c] by {
                    lemma_parent_child(c);
                    lemma_parent_child(p);
                    if c != i {
                        assert(v[parent(p)] <= v[p]);
                        assert(v[p] <= v[c]);
                    }
                }
            }
            lemma_sift_up_heap(w, p);
        } else {
            assert(is_min_heap(v));
        }
    }
}

/// Inserting into a heap-shaped state preserves the min-heap shape: the new
/// element is appended at the end of the window and sifted up.
pub proof fn lemma_insert_preserves_heap(v: Seq<i64>, x: i64)
    requires
        is_min_heap(v),
    ensures
        is_min_heap(sift_up(v.push(x), v.len())),
{
    let w = v.push(x);
    let n = v.len() as int;
    if n == 0 {
        assert(is_min_heap(sift_up(w, 0)));
    } else {
        assert forall|c: int| 1 <= c < w.len() && c != n implies w[parent(c)] <= #[trigger] w[c] by {
            lemma_parent_child(c);
            assert(v[parent(c)] <= v[c]);
        }
        assert forall|c: int|
            1 <= c < w.len() && parent(c) == n implies w[parent(n)] <= #[trigger] w[c] by {
            lemma_parent_child(c);
            assert(c >= left_child(n));
        }
        lemma_sift_up_heap(w, n);
    }
}

} // verus!
