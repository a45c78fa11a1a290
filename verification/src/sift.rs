//! Heap order on a sequence of records, and how one record out of place is
//! moved to where it belongs.
//!
//! A record is a value paired with the identifier of its handle. The node at
//! index `i` has its parent at `(i - 1) / 2` and its children at `2 * i + 1`
//! and `2 * i + 2`.

use crate::order::{le, lemma_le_reflexive, lemma_le_total, lemma_le_transitive, lt, total_order};
use vstd::prelude::*;

verus! {

/// Index of the parent of the node at index `i > 0`.
pub open spec fn parent(i: int) -> int {
    (i - 1) / 2
}

/// Every node but the root is ordered after its parent, or tied with it.
pub open spec fn is_heap<T: Ord>(s: Seq<(T, usize)>) -> bool {
    forall|i: int| #![trigger s[i], s[parent(i)]] 0 < i < s.len() ==> le(s[parent(i)].0, s[i].0)
}

/// `s` is heap-ordered but perhaps between the node `idx` and its parent,
/// and the children of `idx` are ordered after that parent.
pub open spec fn heap_but_up<T: Ord>(s: Seq<(T, usize)>, idx: int) -> bool {
    &&& forall|i: int|
        #![trigger s[i], s[parent(i)]]
        0 < i < s.len() && i != idx ==> le(s[parent(i)].0, s[i].0)
    &&& forall|i: int|
        0 < i < s.len() && parent(i) == idx && idx > 0 ==> le(
            s[parent(idx)].0,
            (#[trigger] s[i]).0,
        )
}

/// `s` is heap-ordered but perhaps between the node `idx` and its children,
/// and those children are ordered after the parent of `idx`.
pub open spec fn heap_but_down<T: Ord>(s: Seq<(T, usize)>, idx: int) -> bool {
    &&& forall|i: int|
        #![trigger s[i], s[parent(i)]]
        0 < i < s.len() && parent(i) != idx ==> le(s[parent(i)].0, s[i].0)
    &&& forall|i: int|
        0 < i < s.len() && parent(i) == idx && idx > 0 ==> le(
            s[parent(idx)].0,
            (#[trigger] s[i]).0,
        )
}

/// `s` with the records at `a` and `b` exchanged.
pub open spec fn swapped<T>(s: Seq<(T, usize)>, a: int, b: int) -> Seq<(T, usize)> {
    s.update(a, s[b]).update(b, s[a])
}

/// `s` after the record at `idx` has risen towards the root: as long as it
/// is ordered strictly before its parent, the two change places.
pub open spec fn sifted_up<T: Ord>(s: Seq<(T, usize)>, idx: int) -> Seq<(T, usize)>
    decreases idx,
{
    if 0 < idx < s.len() && lt(s[idx].0, s[parent(idx)].0) {
        sifted_up(swapped(s, parent(idx), idx), parent(idx))
    } else {
        s
    }
}

/// The child of the node `idx` that is ordered first: the left one, unless
/// there is a right one ordered strictly before it.
pub open spec fn first_child<T: Ord>(s: Seq<(T, usize)>, idx: int) -> int {
    if 2 * idx + 2 < s.len() && lt(s[2 * idx + 2].0, s[2 * idx + 1].0) {
        2 * idx + 2
    } else {
        2 * idx + 1
    }
}

/// `s` after the record at `idx` has sunk away from the root: as long as
/// its first child is ordered strictly before it, the two change places.
pub open spec fn sifted_down<T: Ord>(s: Seq<(T, usize)>, idx: int) -> Seq<(T, usize)>
    decreases s.len() - idx,
{
    if 0 <= idx && 2 * idx + 1 < s.len() && lt(s[first_child(s, idx)].0, s[idx].0) {
        sifted_down(swapped(s, idx, first_child(s, idx)), first_child(s, idx))
    } else {
        s
    }
}

/// `s` after the record at `at` has left it: the last record takes its
/// place and rises if it is ordered strictly before the record that left,
/// and sinks otherwise.
pub open spec fn removed_at<T: Ord>(s: Seq<(T, usize)>, at: int) -> Seq<(T, usize)> {
    let filled = s.update(at, s.last()).drop_last();
    if at >= filled.len() {
        filled
    } else if lt(filled[at].0, s[at].0) {
        sifted_up(filled, at)
    } else {
        sifted_down(filled, at)
    }
}

/// Moving a node that is ordered strictly before its parent one level up
/// leaves the heap order intact everywhere but above the node's new place.
pub proof fn lemma_sift_up_step<T: Ord>(s: Seq<(T, usize)>, idx: int)
    requires
        total_order::<T>(),
        0 < idx < s.len(),
        heap_but_up(s, idx),
        lt(s[idx].0, s[parent(idx)].0),
    ensures
        heap_but_up(swapped(s, parent(idx), idx), parent(idx)),
{
    let p = parent(idx);
    let s2 = swapped(s, p, idx);
    lemma_le_total(s[idx].0, s[p].0);
    assert forall|i: int| #![trigger s2[i], s2[parent(i)]] 0 < i < s2.len() && i != p implies le(
        s2[parent(i)].0,
        s2[i].0,
    ) by {
        if i == idx {
        } else if parent(i) == p {
            assert(le(s[p].0, s[i].0));
            lemma_le_transitive(s[idx].0, s[p].0, s[i].0);
        } else if parent(i) == idx {
            assert(le(s[p].0, s[i].0));
        } else {
            assert(le(s[parent(i)].0, s[i].0));
        }
    }
    assert forall|i: int| 0 < i < s2.len() && parent(i) == p && p > 0 implies le(
        s2[parent(p)].0,
        (#[trigger] s2[i]).0,
    ) by {
        let pp = parent(p);
        assert(le(s[pp].0, s[p].0));
        if i != idx {
            assert(le(s[p].0, s[i].0));
            lemma_le_transitive(s[pp].0, s[p].0, s[i].0);
        }
    }
}

/// Once the node `idx` is ordered after its parent, nothing is out of order.
pub proof fn lemma_sift_up_done<T: Ord>(s: Seq<(T, usize)>, idx: int)
    requires
        heap_but_up(s, idx),
        idx <= 0 || idx >= s.len() || le(s[parent(idx)].0, s[idx].0),
    ensures
        is_heap(s),
{
}

/// Moving a node below its least child, where that child is ordered strictly
/// before it, leaves the heap order intact everywhere but below the node's
/// new place.
pub proof fn lemma_sift_down_step<T: Ord>(s: Seq<(T, usize)>, idx: int, child: int)
    requires
        total_order::<T>(),
        0 <= idx < child < s.len(),
        parent(child) == idx,
        heap_but_down(s, idx),
        lt(s[child].0, s[idx].0),
        forall|i: int| 0 < i < s.len() && parent(i) == idx ==> le(s[child].0, (#[trigger] s[i]).0),
    ensures
        heap_but_down(swapped(s, idx, child), child),
{
    let s2 = swapped(s, idx, child);
    lemma_le_total(s[child].0, s[idx].0);
    assert forall|i: int|
        #![trigger s2[i], s2[parent(i)]]
        0 < i < s2.len() && parent(i) != child implies le(s2[parent(i)].0, s2[i].0) by {
        if i == child {
        } else if parent(i) == idx {
            assert(le(s[child].0, s[i].0));
        } else if i == idx {
            assert(le(s[parent(idx)].0, s[child].0));
        } else {
            assert(le(s[parent(i)].0, s[i].0));
        }
    }
    assert forall|i: int| 0 < i < s2.len() && parent(i) == child && child > 0 implies le(
        s2[parent(child)].0,
        (#[trigger] s2[i]).0,
    ) by {
        assert(le(s[child].0, s[i].0));
    }
}

/// Once the node `idx` is ordered before its children, nothing is out of order.
pub proof fn lemma_sift_down_done<T: Ord>(s: Seq<(T, usize)>, idx: int)
    requires
        heap_but_down(s, idx),
        forall|i: int| 0 < i < s.len() && parent(i) == idx ==> le(s[idx].0, (#[trigger] s[i]).0),
    ensures
        is_heap(s),
{
}

/// A heap-ordered sequence with one more record at its end is out of order
/// at most between that record and its parent.
pub proof fn lemma_push_heap<T: Ord>(s: Seq<(T, usize)>, e: (T, usize))
    requires
        is_heap(s),
    ensures
        heap_but_up(s.push(e), s.len() as int),
{
    let s2 = s.push(e);
    assert forall|i: int| #![trigger s2[i], s2[parent(i)]] 0 < i < s2.len() && i != s.len() implies le(
        s2[parent(i)].0,
        s2[i].0,
    ) by {
        assert(le(s[parent(i)].0, s[i].0));
    }
}

/// A heap-ordered sequence without its last record is heap-ordered.
pub proof fn lemma_drop_last_heap<T: Ord>(s: Seq<(T, usize)>)
    requires
        is_heap(s),
        s.len() > 0,
    ensures
        is_heap(s.drop_last()),
{
    let s2 = s.drop_last();
    assert forall|i: int| #![trigger s2[i], s2[parent(i)]] 0 < i < s2.len() implies le(
        s2[parent(i)].0,
        s2[i].0,
    ) by {
        assert(le(s[parent(i)].0, s[i].0));
    }
}

/// After the last record of the heap-ordered `s` has taken the place of the
/// record at `idx`, the order can only be broken next to `idx`: above it if
/// the record is ordered strictly before the one it replaced, below it
/// otherwise.
pub proof fn lemma_hole_filled<T: Ord>(s: Seq<(T, usize)>, idx: usize)
    requires
        total_order::<T>(),
        is_heap(s),
        idx < s.len() - 1,
    ensures
        ({
            let s2 = s.update(idx as int, s.last()).drop_last();
            &&& lt(s2[idx as int].0, s[idx as int].0) ==> heap_but_up(s2, idx as int)
            &&& !lt(s2[idx as int].0, s[idx as int].0) ==> heap_but_down(s2, idx as int)
        }),
{
    let s2 = s.update(idx as int, s.last()).drop_last();
    let gone = s[idx as int].0;
    let moved = s2[idx as int].0;
    let up = parent(idx as int);
    assert forall|i: int| 0 < i < s2.len() && parent(i) == idx && idx > 0 implies le(
        s2[parent(idx as int)].0,
        (#[trigger] s2[i]).0,
    ) by {
        assert(le(s[up].0, s[idx as int].0));
        assert(le(s[parent(i)].0, s[i].0));
        lemma_le_transitive(s[up].0, gone, s[i].0);
    }
    if lt(moved, gone) {
        lemma_le_total(moved, gone);
        assert forall|i: int|
            #![trigger s2[i], s2[parent(i)]]
            0 < i < s2.len() && i != idx implies le(s2[parent(i)].0, s2[i].0) by {
            assert(le(s[parent(i)].0, s[i].0));
            if parent(i) == idx {
                lemma_le_transitive(moved, gone, s[i].0);
            }
        }
    } else {
        assert forall|i: int|
            #![trigger s2[i], s2[parent(i)]]
            0 < i < s2.len() && parent(i) != idx implies le(s2[parent(i)].0, s2[i].0) by {
            assert(le(s[parent(i)].0, s[i].0));
            if i == idx {
                lemma_le_transitive(s[parent(i)].0, gone, moved);
            }
        }
    }
}

/// In a heap-ordered sequence no record is ordered strictly before the root.
pub proof fn lemma_root_least<T: Ord>(s: Seq<(T, usize)>, i: int)
    requires
        total_order::<T>(),
        is_heap(s),
        0 <= i < s.len(),
    ensures
        le(s[0].0, s[i].0),
    decreases i,
{
    if i == 0 {
        lemma_le_reflexive(s[0].0);
    } else {
        lemma_root_least(s, parent(i));
        assert(le(s[parent(i)].0, s[i].0));
        lemma_le_transitive(s[0].0, s[parent(i)].0, s[i].0);
    }
}

} // verus!
