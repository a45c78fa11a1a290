//! The queue itself: heap-ordered records tied to the handle table.

use crate::drain::pops;
use crate::order::{le, lemma_le_reflexive, lemma_le_total, lemma_le_transitive, less, total_order};
use crate::sift::{
    first_child, heap_but_down, heap_but_up, is_heap, lemma_drop_last_heap, lemma_hole_filled,
    lemma_push_heap, lemma_root_least, lemma_sift_down_done, lemma_sift_down_step, lemma_sift_up_done,
    lemma_sift_up_step, parent, removed_at, sifted_down, sifted_up, swapped,
};
use crate::slab::{
    count_full, lemma_count_full_push, lemma_count_full_update, lemma_free_frame, lemma_free_give,
    lemma_free_head, lemma_free_take, link_ok, resolve, set_index, threaded, SlabSlot,
};
use vstd::multiset::Multiset;
use vstd::prelude::*;

verus! {

/// A binary min-heap whose elements can be removed through their `Slot`.
pub struct Heap<T> {
    // Binary heap of items, each with the identifier of its handle.
    items: Vec<(T, usize)>,
    // From a handle's identifier to the index in `items` of its element.
    index: Vec<SlabSlot<usize>>,
    // Head of the free list; `index.len()` when the list is empty.
    next_index: usize,
    // The identifiers on the free list, head first.
    free: Ghost<Seq<usize>>,
}

/// The token for one element of a `Heap`, valid until the element leaves it.
pub struct Slot {
    idx: usize,
}

impl Slot {
    /// The identifier that this token carries.
    pub closed spec fn id(&self) -> usize {
        self.idx
    }
}

/// The values of the records in `s`, regardless of position.
pub open spec fn values_of<T>(s: Seq<(T, usize)>) -> Multiset<T> {
    s.map_values(|e: (T, usize)| e.0).to_multiset()
}

/// Each record carries a handle that resolves to the record's own index.
pub open spec fn records_resolve<T>(items: Seq<(T, usize)>, index: Seq<SlabSlot<usize>>) -> bool {
    forall|i: int|
        #![trigger resolve(index, items[i].1)]
        0 <= i < items.len() ==> (resolve(index, items[i].1) matches Some(p) && p == i)
}

/// Records and the table name each other: record `i` carries a handle that
/// resolves to `i`, and every handle that resolves names such a record.
pub open spec fn linked<T>(items: Seq<(T, usize)>, index: Seq<SlabSlot<usize>>) -> bool {
    &&& records_resolve(items, index)
    &&& forall|id: usize|
        #![trigger resolve(index, id)]
        resolve(index, id) matches Some(p) ==> p < items.len() && items[p as int].1 == id
}

/// The live handles and the value that each one names.
pub open spec fn model<T>(items: Seq<(T, usize)>, index: Seq<SlabSlot<usize>>) -> Map<usize, T> {
    Map::new(
        |id: usize| resolve(index, id) is Some,
        |id: usize| items[resolve(index, id).unwrap() as int].0,
    )
}

/// Exchanging two records and redirecting their two handles keeps records and
/// table linked, and changes neither the live handles nor what they name.
pub proof fn lemma_swap_linked<T>(
    items: Seq<(T, usize)>,
    index: Seq<SlabSlot<usize>>,
    a: usize,
    b: usize,
)
    requires
        linked(items, index),
        a < b < items.len(),
    ensures
        ({
            let items2 = swapped(items, a as int, b as int);
            let index2 = index.update(items2[a as int].1 as int, SlabSlot::Full { value: a }).update(
                items2[b as int].1 as int,
                SlabSlot::Full { value: b },
            );
            &&& linked(items2, index2)
            &&& model(items2, index2) == model(items, index)
            &&& values_of(items2) == values_of(items)
            &&& count_full(index2) == count_full(index)
            &&& index2.len() == index.len()
            &&& resolve(index, items2[a as int].1) is Some
            &&& resolve(
                index.update(items2[a as int].1 as int, SlabSlot::Full { value: a }),
                items2[b as int].1,
            ) is Some
            &&& forall|head: usize, free: Seq<usize>|
                threaded(index, head, free) ==> #[trigger] threaded(index2, head, free)
        }),
{
    let items2 = swapped(items, a as int, b as int);
    let ia = items2[a as int].1;
    let ib = items2[b as int].1;
    let index1 = index.update(ia as int, SlabSlot::Full { value: a });
    let index2 = index1.update(ib as int, SlabSlot::Full { value: b });
    assert(items[a as int].1 == ib && items[b as int].1 == ia);
    assert(resolve(index, items[b as int].1) == Some(b));
    assert(resolve(index, items[a as int].1) == Some(a));
    assert forall|i: int| 0 <= i < items2.len() implies (#[trigger] resolve(index2, items2[i].1) matches Some(p)
        && p == i) by {
        if i != a && i != b {
            assert(items2[i] == items[i]);
            assert(resolve(index, items[i].1) matches Some(p) && p == i);
            assert(items[i].1 != ia && items[i].1 != ib);
        }
    }
    assert forall|id: usize| #![trigger resolve(index2, id)] resolve(index2, id) is Some implies {
        let p = resolve(index2, id).unwrap();
        p < items2.len() && items2[p as int].1 == id
    } by {
        if id != ia && id != ib {
            assert(resolve(index2, id) == resolve(index, id));
            let p = resolve(index, id).unwrap();
            assert(items[p as int].1 == id);
        }
    }
    assert(model(items2, index2) =~= model(items, index)) by {
        assert forall|id: usize| resolve(index2, id) is Some implies items2[resolve(
            index2,
            id,
        ).unwrap() as int].0 == items[resolve(index, id).unwrap() as int].0 by {
            if id != ia && id != ib {
                assert(resolve(index2, id) == resolve(index, id));
                let p = resolve(index, id).unwrap();
                assert(items[p as int].1 == id);
            }
        }
        assert forall|id: usize| resolve(index2, id) is Some <==> resolve(index, id) is Some by {
            if id != ia && id != ib {
                assert(resolve(index2, id) == resolve(index, id));
            }
        }
    }
    assert(values_of(items2) == values_of(items)) by {
        let f = |e: (T, usize)| e.0;
        let vals = items.map_values(f);
        let (x, y) = (vals[a as int], vals[b as int]);
        assert(items2.map_values(f) =~= vals.update(a as int, y).update(b as int, x));
        vstd::seq_lib::to_multiset_update(vals, a as int, y);
        vstd::seq_lib::to_multiset_update(vals.update(a as int, y), b as int, x);
        vstd::seq_lib::to_multiset_contains(vals, x);
        vstd::seq_lib::to_multiset_contains(vals, y);
        assert(vals.contains(x));
        assert(vals.contains(y));
        assert(vals.to_multiset().insert(y).remove(x).insert(x).remove(y) =~= vals.to_multiset());
    }
    lemma_count_full_update(index, ia as int, SlabSlot::Full { value: a });
    lemma_count_full_update(index1, ib as int, SlabSlot::Full { value: b });
    assert forall|head: usize, free: Seq<usize>| threaded(index, head, free) implies #[trigger] threaded(
        index2,
        head,
        free,
    ) by {
        lemma_free_frame(index, index2, head, free);
    }
}

/// A value is among `values_of(s)` exactly when some record of `s` holds it.
pub proof fn lemma_values_of_contains<T>(s: Seq<(T, usize)>, v: T)
    ensures
        values_of(s).contains(v) <==> exists|i: int| 0 <= i < s.len() && (#[trigger] s[i]).0 == v,
{
    let vals = s.map_values(|e: (T, usize)| e.0);
    vstd::seq_lib::to_multiset_contains(vals, v);
    if vals.contains(v) {
        let i = choose|i: int| 0 <= i < vals.len() && vals[i] == v;
        assert(s[i].0 == v);
    }
    if exists|i: int| 0 <= i < s.len() && (#[trigger] s[i]).0 == v {
        let i = choose|i: int| 0 <= i < s.len() && (#[trigger] s[i]).0 == v;
        assert(vals[i] == v);
    }
}

/// Appending a record under a handle that the table does not resolve, and
/// making the handle resolve to it, adds that handle and value and no other.
pub proof fn lemma_push_linked<T>(
    items: Seq<(T, usize)>,
    index: Seq<SlabSlot<usize>>,
    index2: Seq<SlabSlot<usize>>,
    t: T,
    id: usize,
)
    requires
        linked(items, index),
        items.len() <= usize::MAX,
        resolve(index, id) is None,
        resolve(index2, id) == Some(items.len() as usize),
        forall|j: usize| j != id ==> #[trigger] resolve(index2, j) == resolve(index, j),
    ensures
        linked(items.push((t, id)), index2),
        model(items.push((t, id)), index2) == model(items, index).insert(id, t),
        values_of(items.push((t, id))) == values_of(items).insert(t),
{
    let items2 = items.push((t, id));
    assert forall|i: int| 0 <= i < items2.len() implies (#[trigger] resolve(index2, items2[i].1) matches Some(p)
        && p == i) by {
        if i < items.len() {
            assert(resolve(index, items[i].1) is Some);
        }
    }
    assert forall|j: usize| #![trigger resolve(index2, j)] resolve(index2, j) is Some implies {
        let p = resolve(index2, j).unwrap();
        p < items2.len() && items2[p as int].1 == j
    } by {
        if j != id {
            assert(resolve(index2, j) == resolve(index, j));
        }
    }
    assert(model(items2, index2) =~= model(items, index).insert(id, t)) by {
        assert forall|j: usize| j != id implies #[trigger] resolve(index2, j) == resolve(index, j) by {}
    }
    let f = |e: (T, usize)| e.0;
    assert(items2.map_values(f) =~= items.map_values(f).push(t));
    vstd::seq_lib::to_multiset_build(items.map_values(f), t);
}

/// Filling the place of the record at `idx` with the last record, dropping
/// the last place, and taking the removed record's handle out of the table
/// removes that handle and value and no other.
pub proof fn lemma_swap_remove_linked<T>(
    items: Seq<(T, usize)>,
    index: Seq<SlabSlot<usize>>,
    index2: Seq<SlabSlot<usize>>,
    idx: usize,
)
    requires
        linked(items, index),
        idx < items.len(),
        resolve(index2, items[idx as int].1) is None,
        idx < items.len() - 1 ==> resolve(index2, items.last().1) == Some(idx),
        forall|j: usize|
            j != items[idx as int].1 && j != items.last().1 ==> #[trigger] resolve(index2, j)
                == resolve(index, j),
    ensures
        ({
            let items2 = items.update(idx as int, items.last()).drop_last();
            &&& linked(items2, index2)
            &&& model(items2, index2) == model(items, index).remove(items[idx as int].1)
            &&& values_of(items2) == values_of(items).remove(items[idx as int].0)
        }),
{
    let items2 = items.update(idx as int, items.last()).drop_last();
    let id = items[idx as int].1;
    let moved = items.last().1;
    let n = items.len() - 1;
    assert(resolve(index, id) == Some(idx));
    assert(resolve(index, moved) matches Some(p) && p == n);
    assert forall|i: int| 0 <= i < items2.len() implies (#[trigger] resolve(index2, items2[i].1) matches Some(p)
        && p == i) by {
        if i != idx {
            assert(resolve(index, items[i].1) matches Some(p) && p == i);
        }
    }
    assert forall|j: usize| #![trigger resolve(index2, j)] resolve(index2, j) is Some implies {
        let p = resolve(index2, j).unwrap();
        p < items2.len() && items2[p as int].1 == j
    } by {
        if j != id && j != moved {
            assert(resolve(index2, j) == resolve(index, j));
            let p = resolve(index, j).unwrap();
            assert(items[p as int].1 == j);
        }
    }
    assert(model(items2, index2) =~= model(items, index).remove(id)) by {
        assert forall|j: usize| j != id implies (resolve(index2, j) is Some <==> resolve(index, j) is Some)
        by {
            if j != moved {
                assert(resolve(index2, j) == resolve(index, j));
            }
        }
        assert forall|j: usize| j != id && resolve(index2, j) is Some implies items2[resolve(
            index2,
            j,
        ).unwrap() as int].0 == items[resolve(index, j).unwrap() as int].0 by {
            if j != moved {
                assert(resolve(index2, j) == resolve(index, j));
                let p = resolve(index, j).unwrap();
                assert(items[p as int].1 == j);
            }
        }
    }
    let f = |e: (T, usize)| e.0;
    let vals = items.map_values(f);
    let u = vals.update(idx as int, vals.last());
    assert(items2.map_values(f) =~= u.remove(n));
    vstd::seq_lib::to_multiset_update(vals, idx as int, vals.last());
    vstd::seq_lib::to_multiset_remove(u, n);
    vstd::seq_lib::to_multiset_contains(vals, vals[idx as int]);
    assert(vals.contains(vals[idx as int]));
    assert(vals.to_multiset().insert(vals.last()).remove(vals[idx as int]).remove(vals.last())
        =~= vals.to_multiset().remove(vals[idx as int]));
}

impl<T: Ord> Heap<T> {
    /// The records in heap order: each a value and its handle's identifier.
    pub closed spec fn entries(&self) -> Seq<(T, usize)> {
        self.items@
    }

    /// The handle table, indexed by identifier.
    pub closed spec fn table(&self) -> Seq<SlabSlot<usize>> {
        self.index@
    }

    /// The first identifier on the free list, or the table's length.
    pub closed spec fn free_head(&self) -> usize {
        self.next_index
    }

    /// The identifiers on the free list, in the order of their reuse.
    pub closed spec fn free_ids(&self) -> Seq<usize> {
        self.free@
    }

    /// The index of the record that the handle `id` names, if it is live.
    pub open spec fn position(&self, id: usize) -> Option<usize> {
        resolve(self.table(), id)
    }

    /// The identifier that the next insertion hands out.
    pub open spec fn next_id(&self) -> usize {
        if self.free_ids().len() > 0 {
            self.free_ids()[0]
        } else {
            self.table().len() as usize
        }
    }

    /// The number of elements in the queue.
    pub open spec fn len(&self) -> nat {
        self.entries().len()
    }

    /// The values in the queue, regardless of position.
    pub open spec fn values(&self) -> Multiset<T> {
        values_of(self.entries())
    }

    /// What every operation maintains: the records are heap-ordered, records
    /// and handle table name each other, the table holds one occupied entry
    /// for each record, and its unused entries form the free list.
    pub open spec fn wf(&self) -> bool {
        &&& is_heap(self.entries())
        &&& linked(self.entries(), self.table())
        &&& count_full(self.table()) == self.entries().len()
        &&& threaded(self.table(), self.free_head(), self.free_ids())
    }

    /// What `assert_consistent` tests: the table holds as many occupied
    /// entries as there are records, each record's handle resolves to the
    /// record, and the records are heap-ordered.
    pub open spec fn consistent(&self) -> bool {
        &&& count_full(self.table()) == self.entries().len()
        &&& records_resolve(self.entries(), self.table())
        &&& is_heap(self.entries())
    }

    /// `v` is ordered before every value in the queue, or tied with it.
    pub open spec fn least(&self, v: T) -> bool {
        &&& forall|w: T| #[trigger] self.values().contains(w) ==> le(v, w)
        &&& forall|id: usize| self@.dom().contains(id) ==> le(v, #[trigger] self@[id])
    }

    /// `self` holds what `before` held, with the records perhaps in other
    /// places: handles, values, and the free list are the same.
    spec fn carried(&self, before: &Self) -> bool {
        &&& linked(self.items@, self.index@)
        &&& self.items@.len() == before.items@.len()
        &&& model(self.items@, self.index@) == model(before.items@, before.index@)
        &&& values_of(self.items@) == values_of(before.items@)
        &&& count_full(self.index@) == count_full(before.index@)
        &&& self.index@.len() == before.index@.len()
        &&& self.next_index == before.next_index
        &&& self.free@ == before.free@
        &&& threaded(before.index@, before.next_index, before.free@) ==> threaded(
            self.index@,
            self.next_index,
            self.free@,
        )
    }

    /// An empty queue.
    pub fn new() -> (h: Heap<T>)
        ensures
            h.wf(),
            h.len() == 0,
            h@ == Map::<usize, T>::empty(),
            h.values() == Multiset::<T>::empty(),
            h.entries() == Seq::<(T, usize)>::empty(),
            h.table() == Seq::<SlabSlot<usize>>::empty(),
            h.free_ids() == Seq::<usize>::empty(),
    {
        let h = Heap { items: Vec::new(), index: Vec::new(), next_index: 0, free: Ghost(Seq::empty()) };
        proof {
            assert(h@ =~= Map::<usize, T>::empty());
            vstd::seq_lib::to_multiset_len(h.items@.map_values(|e: (T, usize)| e.0));
            vstd::multiset::lemma_multiset_empty_len(h.values());
        }
        h
    }

    /// Exchanges the records at `a` and `b` and redirects their handles.
    fn swap_entries(&mut self, a: usize, b: usize)
        requires
            a < b < old(self).items@.len(),
            linked(old(self).items@, old(self).index@),
        ensures
            final(self).items@ == swapped(old(self).items@, a as int, b as int),
            final(self).carried(old(self)),
    {
        proof {
            lemma_swap_linked(self.items@, self.index@, a, b);
        }
        let (lo, hi) = self.items.split_at_mut(b);
        core::mem::swap(&mut lo[a], &mut hi[0]);
        assert(self.items@ =~= swapped(old(self).items@, a as int, b as int));
        let id_a = self.items[a].1;
        set_index(&mut self.index, id_a, a);
        let id_b = self.items[b].1;
        set_index(&mut self.index, id_b, b);
    }

    /// Moves the record at `idx` towards the root until its parent is not
    /// ordered after it, and returns where the record then stands.
    fn percolate_up(&mut self, mut idx: usize) -> (r: usize)
        requires
            total_order::<T>(),
            idx < old(self).items@.len(),
            linked(old(self).items@, old(self).index@),
            heap_but_up(old(self).items@, idx as int),
        ensures
            final(self).carried(old(self)),
            is_heap(final(self).items@),
            final(self).items@ == sifted_up(old(self).items@, idx as int),
            r <= idx,
            final(self).items@[r as int] == old(self).items@[idx as int],
    {
        let ghost start = idx;
        while idx > 0
            invariant
                total_order::<T>(),
                idx <= start,
                idx < self.items@.len(),
                self.carried(old(self)),
                heap_but_up(self.items@, idx as int),
                self.items@[idx as int] == old(self).items@[start as int],
                sifted_up(self.items@, idx as int) == sifted_up(old(self).items@, start as int),
            ensures
                is_heap(self.items@),
                self.items@ == sifted_up(old(self).items@, start as int),
            decreases idx,
        {
            let parent = (idx - 1) / 2;
            if !less(&self.items[idx].0, &self.items[parent].0) {
                proof {
                    lemma_sift_up_done(self.items@, idx as int);
                }
                break ;
            }
            proof {
                lemma_sift_up_step(self.items@, idx as int);
            }
            self.swap_entries(parent, idx);
            idx = parent;
        }
        proof {
            lemma_sift_up_done(self.items@, idx as int);
        }
        idx
    }

    /// Moves the record at `idx` away from the root, each time below the lesser
    /// of its children (the left one if they are tied), until no child is
    /// ordered strictly before it, and returns where the record then stands.
    fn percolate_down(&mut self, mut idx: usize) -> (r: usize)
        requires
            total_order::<T>(),
            idx < old(self).items@.len(),
            linked(old(self).items@, old(self).index@),
            heap_but_down(old(self).items@, idx as int),
        ensures
            final(self).carried(old(self)),
            is_heap(final(self).items@),
            final(self).items@ == sifted_down(old(self).items@, idx as int),
            idx <= r < final(self).items@.len(),
            final(self).items@[r as int] == old(self).items@[idx as int],
    {
        let ghost start = idx;
        loop
            invariant
                total_order::<T>(),
                start <= idx < self.items@.len(),
                self.carried(old(self)),
                heap_but_down(self.items@, idx as int),
                self.items@[idx as int] == old(self).items@[start as int],
                sifted_down(self.items@, idx as int) == sifted_down(old(self).items@, start as int),
            ensures
                is_heap(self.items@),
                self.items@ == sifted_down(old(self).items@, start as int),
            decreases self.items@.len() - idx,
        {
            let len = self.items.len();
            if len - idx <= idx + 1 {
                proof {
                    lemma_sift_down_done(self.items@, idx as int);
                }
                break ;
            }
            let left = 2 * idx + 1;
            let right = left + 1;
            let ghost s = self.items@;
            let ghost (cur, l) = (s[idx as int].0, s[left as int].0);

            let mut swap_left = true;
            if right < len {
                let ghost r = s[right as int].0;
                if less(&self.items[left].0, &self.items[idx].0) {
                    if less(&self.items[right].0, &self.items[left].0) {
                        swap_left = false;
                        proof {
                            lemma_le_total(r, l);
                            lemma_le_reflexive(r);
                            if le(cur, r) {
                                lemma_le_transitive(cur, r, l);
                            }
                        }
                    } else {
                        proof {
                            lemma_le_reflexive(l);
                        }
                    }
                } else if less(&self.items[right].0, &self.items[idx].0) {
                    swap_left = false;
                    proof {
                        lemma_le_total(r, cur);
                        lemma_le_reflexive(r);
                        lemma_le_transitive(r, cur, l);
                        if le(l, r) {
                            lemma_le_transitive(cur, l, r);
                        }
                    }
                } else {
                    proof {
                        lemma_sift_down_done(s, idx as int);
                    }
                    break ;
                }
            } else {
                if !less(&self.items[left].0, &self.items[idx].0) {
                    proof {
                        lemma_sift_down_done(s, idx as int);
                    }
                    break ;
                }
                proof {
                    lemma_le_reflexive(l);
                }
            }

            let child = if swap_left {
                left
            } else {
                right
            };
            proof {
                assert(child == first_child(s, idx as int));
                lemma_sift_down_step(s, idx as int, child as int);
            }
            self.swap_entries(idx, child);
            idx = child;
        }
        idx
    }

    /// Inserts `t` and returns the token by which it can be removed again.
    ///
    /// The token carries the first identifier on the free list, or a new one
    /// if the list is empty.
    pub fn push(&mut self, t: T) -> (slot: Slot)
        requires
            old(self).wf(),
            total_order::<T>(),
        ensures
            final(self).wf(),
            slot.id() == old(self).next_id(),
            !old(self)@.dom().contains(slot.id()),
            final(self).entries() == sifted_up(
                old(self).entries().push((t, slot.id())),
                old(self).len() as int,
            ),
            final(self)@ == old(self)@.insert(slot.id(), t),
            final(self).values() == old(self).values().insert(t),
            final(self).len() == old(self).len() + 1,
            final(self).free_ids() == if old(self).free_ids().len() > 0 {
                old(self).free_ids().drop_first()
            } else {
                old(self).free_ids()
            },
            final(self).table().len() == old(self).table().len() + if old(self).free_ids().len()
                > 0 {
                0int
            } else {
                1int
            },
    {
        let len = self.items.len();
        let slot = SlabSlot::Full { value: len };
        proof {
            lemma_free_head(self.index@, self.next_index, self.free@);
        }
        let slot_idx = if self.next_index == self.index.len() {
            self.index.push(slot);
            self.next_index = self.index.len();
            proof {
                lemma_count_full_push(old(self).index@, slot);
                assert forall|id: usize|
                    id < self.index@.len() && #[trigger] resolve(
                        self.index@,
                        id,
                    ) is None implies self.free@.contains(id) by {
                    assert(resolve(old(self).index@, id) is None);
                }
            }
            self.index.len() - 1
        } else {
            proof {
                lemma_free_take(self.index@, self.next_index, self.free@, len);
                lemma_count_full_update(self.index@, self.next_index as int, slot);
            }
            let mut slot = slot;
            core::mem::swap(&mut self.index[self.next_index], &mut slot);
            match slot {
                SlabSlot::Empty { next } => {
                    let reused = self.next_index;
                    self.next_index = next;
                    self.free = Ghost(self.free@.drop_first());
                    reused
                },
                SlabSlot::Full { .. } => vstd::pervasive::unreached(),
            }
        };
        self.items.push((t, slot_idx));
        proof {
            lemma_push_linked(old(self).items@, old(self).index@, self.index@, t, slot_idx);
            lemma_push_heap(old(self).items@, (t, slot_idx));
        }
        self.percolate_up(len);
        Slot { idx: slot_idx }
    }

    /// The least value in the queue, or `None` if the queue is empty.
    pub fn peek(&self) -> (r: Option<&T>)
        requires
            self.wf(),
        ensures
            self.len() == 0 ==> r is None,
            self.len() > 0 ==> r == Some(&self.entries()[0].0),
            r matches Some(v) ==> self.values().contains(*v) && self@.dom().contains(
                self.entries()[0].1,
            ) && self@[self.entries()[0].1] == *v,
            r matches Some(v) ==> (total_order::<T>() ==> self.least(*v)),
    {
        proof {
            if self.items@.len() > 0 {
                self.lemma_root_is_least();
            }
        }
        match self.items.first() {
            Some(e) => Some(&e.0),
            None => None,
        }
    }

    /// Removes the least value and returns it, or `None` if the queue is empty.
    pub fn pop(&mut self) -> (r: Option<T>)
        requires
            old(self).wf(),
            total_order::<T>(),
        ensures
            final(self).wf(),
            pops(old(self).values(), final(self).values(), r),
            old(self).len() == 0 ==> r is None && *final(self) == *old(self),
            old(self).len() > 0 ==> {
                let (v, id) = old(self).entries()[0];
                &&& r == Some(v)
                &&& final(self).entries() == removed_at(old(self).entries(), 0)
                &&& old(self).least(v)
                &&& old(self).values().contains(v)
                &&& old(self)@.dom().contains(id)
                &&& old(self)@[id] == v
                &&& final(self)@ == old(self)@.remove(id)
                &&& final(self).values() == old(self).values().remove(v)
                &&& final(self).len() == old(self).len() - 1
                &&& final(self).free_ids() == seq![id] + old(self).free_ids()
                &&& final(self).table().len() == old(self).table().len()
            },
    {
        if self.items.is_empty() {
            proof {
                vstd::seq_lib::to_multiset_len(self.items@.map_values(|e: (T, usize)| e.0));
            }
            return None;
        }
        proof {
            self.lemma_root_is_least();
        }
        let slot = Slot { idx: self.items[0].1 };
        Some(self.remove(slot))
    }

    /// Removes the element that `slot` names and returns its value.
    pub fn remove(&mut self, slot: Slot) -> (item: T)
        requires
            old(self).wf(),
            total_order::<T>(),
            old(self)@.dom().contains(slot.id()),
        ensures
            final(self).wf(),
            item == old(self)@[slot.id()],
            final(self).entries() == removed_at(
                old(self).entries(),
                old(self).position(slot.id()).unwrap() as int,
            ),
            final(self)@ == old(self)@.remove(slot.id()),
            final(self).values() == old(self).values().remove(item),
            final(self).len() == old(self).len() - 1,
            final(self).free_ids() == seq![slot.id()] + old(self).free_ids(),
            final(self).table().len() == old(self).table().len(),
    {
        let ghost items0 = self.items@;
        let ghost index0 = self.index@;
        proof {
            assert(resolve(index0, slot.idx) is Some);
            lemma_free_give(index0, self.next_index, self.free@, slot.idx);
            lemma_count_full_update(index0, slot.idx as int, SlabSlot::Empty { next: self.next_index });
        }
        let mut empty = SlabSlot::Empty { next: self.next_index };
        core::mem::swap(&mut self.index[slot.idx], &mut empty);
        let idx = match empty {
            SlabSlot::Full { value } => value,
            SlabSlot::Empty { .. } => vstd::pervasive::unreached(),
        };
        self.next_index = slot.idx;
        self.free = Ghost(seq![slot.idx] + self.free@);
        let ghost index1 = self.index@;
        proof {
            assert(resolve(index0, items0.last().1) matches Some(p) && p == items0.len() - 1);
        }
        let (item, slot_idx) = self.items.swap_remove(idx);
        assert(slot_idx == slot.idx);
        if idx < self.items.len() {
            let moved = self.items[idx].1;
            set_index(&mut self.index, moved, idx);
            proof {
                lemma_count_full_update(index1, moved as int, SlabSlot::Full { value: idx });
                lemma_free_frame(index1, self.index@, self.next_index, self.free@);
                lemma_swap_remove_linked(items0, index0, self.index@, idx);
                lemma_hole_filled(items0, idx);
            }
            if less(&self.items[idx].0, &item) {
                self.percolate_up(idx);
            } else {
                self.percolate_down(idx);
            }
        } else {
            proof {
                lemma_swap_remove_linked(items0, index0, self.index@, idx);
                lemma_drop_last_heap(items0);
                assert(self.items@ =~= items0.drop_last());
            }
        }
        item
    }

    /// Tests at run time whether records and handle table agree and the
    /// records are heap-ordered. A well-formed queue always passes.
    pub fn assert_consistent(&self) -> (ok: bool)
        requires
            total_order::<T>(),
        ensures
            ok == self.consistent(),
            self.wf() ==> ok,
    {
        let len = self.items.len();
        let slots = self.index.len();

        let mut full: usize = 0;
        let mut k: usize = 0;
        while k < slots
            invariant
                slots == self.index@.len(),
                k <= slots,
                full <= k,
                full == count_full(self.index@.take(k as int)),
            decreases slots - k,
        {
            proof {
                assert(self.index@.take(k + 1).drop_last() =~= self.index@.take(k as int));
            }
            match self.index[k] {
                SlabSlot::Full { .. } => {
                    full += 1;
                },
                SlabSlot::Empty { .. } => {},
            }
            k += 1;
        }
        proof {
            assert(self.index@.take(slots as int) =~= self.index@);
        }
        if len != full {
            return false;
        }
        let mut i: usize = 0;
        while i < len
            invariant
                len == self.items@.len(),
                slots == self.index@.len(),
                i <= len,
                forall|m: int|
                    #![trigger resolve(self.index@, self.items@[m].1)]
                    0 <= m < i ==> (resolve(self.index@, self.items@[m].1) matches Some(p) && p == m),
            decreases len - i,
        {
            let j = self.items[i].1;
            let ghost found = resolve(self.index@, self.items@[i as int].1);
            if j >= slots {
                assert(found is None);
                return false;
            }
            match self.index[j] {
                SlabSlot::Full { value } => {
                    if value != i {
                        assert(found == Some(value));
                        return false;
                    }
                },
                SlabSlot::Empty { .. } => {
                    assert(found is None);
                    return false;
                },
            }
            i += 1;
        }

        let mut i: usize = 0;
        while i < len
            invariant
                total_order::<T>(),
                len == self.items@.len(),
                i <= len,
                records_resolve(self.items@, self.index@),
                full == count_full(self.index@),
                len == full,
                forall|m: int|
                    #![trigger self.items@[m], self.items@[parent(m)]]
                    0 < m < i ==> le(self.items@[parent(m)].0, self.items@[m].0),
            decreases len - i,
        {
            let ghost s = self.items@;
            if i > 0 {
                if less(&self.items[i].0, &self.items[(i - 1) / 2].0) {
                    proof {
                        assert(!le(s[parent(i as int)].0, s[i as int].0));
                    }
                    return false;
                }
            }
            if len - i > i + 1 {
                let left = 2 * i + 1;
                if less(&self.items[left].0, &self.items[i].0) {
                    proof {
                        assert(!le(s[parent(left as int)].0, s[left as int].0));
                    }
                    return false;
                }
                let right = left + 1;
                if right < len {
                    if less(&self.items[right].0, &self.items[i].0) {
                        proof {
                            assert(!le(s[parent(right as int)].0, s[right as int].0));
                        }
                        return false;
                    }
                }
            }
            i += 1;
        }
        true
    }

    /// In a well-formed queue no record is ordered strictly before its parent.
    pub proof fn lemma_heap_property(&self, i: int)
        requires
            self.wf(),
            0 < i < self.len(),
        ensures
            le(self.entries()[parent(i)].0, self.entries()[i].0),
    {
    }

    /// In a well-formed queue the handle `id` resolves to the index `p`
    /// exactly when the record at `p` carries `id`.
    pub proof fn lemma_handles_match(&self, id: usize, p: usize)
        requires
            self.wf(),
        ensures
            self.position(id) == Some(p) <==> p < self.len() && self.entries()[p as int].1 == id,
    {
        if p < self.len() && self.entries()[p as int].1 == id {
            assert(resolve(self.table(), self.entries()[p as int].1) matches Some(q) && q == p);
        }
    }

    /// The live handles are the identifiers of the table that are not on the
    /// free list, and there is one value for each record.
    pub proof fn lemma_live_handles(&self)
        requires
            self.wf(),
        ensures
            forall|id: usize| #[trigger]
                self@.dom().contains(id) <==> id < self.table().len() && !self.free_ids().contains(id),
            self.values().len() == self.len(),
    {
        let free = self.free_ids();
        assert forall|id: usize| #[trigger]
            self@.dom().contains(id) <==> id < self.table().len() && !free.contains(id) by {
            if free.contains(id) {
                let k = choose|k: int| 0 <= k < free.len() && free[k] == id;
                assert(link_ok(self.table(), free, k));
            }
        }
        vstd::seq_lib::to_multiset_len(self.entries().map_values(|e: (T, usize)| e.0));
    }

    /// Two well-formed queues with the same records, the same free list and
    /// tables of the same length have the same table.
    pub proof fn lemma_table_determined(&self, other: &Self)
        requires
            self.wf(),
            other.wf(),
            self.entries() == other.entries(),
            self.free_ids() == other.free_ids(),
            self.table().len() == other.table().len(),
        ensures
            self.table() == other.table(),
            self.free_head() == other.free_head(),
    {
        let free = self.free_ids();
        let items = self.entries();
        assert forall|j: int| 0 <= j < self.table().len() implies self.table()[j] == other.table()[j] by {
            let id = j as usize;
            match resolve(self.table(), id) {
                Some(p) => {
                    assert(items[p as int].1 == id);
                    assert(resolve(other.table(), items[p as int].1) matches Some(q) && q == p);
                },
                None => {
                    let k = choose|k: int| 0 <= k < free.len() && free[k] == id;
                    assert(link_ok(self.table(), free, k));
                    assert(link_ok(other.table(), free, k));
                },
            }
        }
        assert(self.table() =~= other.table());
    }

    /// The root of a well-formed queue holds a least value of the queue.
    pub proof fn lemma_root_is_least(&self)
        requires
            self.wf(),
            self.entries().len() > 0,
        ensures
            self.values().contains(self.entries()[0].0),
            self@.dom().contains(self.entries()[0].1),
            self@[self.entries()[0].1] == self.entries()[0].0,
            total_order::<T>() ==> self.least(self.entries()[0].0),
    {
        let s = self.entries();
        lemma_values_of_contains(s, s[0].0);
        assert(resolve(self.table(), s[0].1) matches Some(p) && p == 0);
        if total_order::<T>() {
            assert forall|w: T| #[trigger] self.values().contains(w) implies le(s[0].0, w) by {
                lemma_values_of_contains(s, w);
                let i = choose|i: int| 0 <= i < s.len() && (#[trigger] s[i]).0 == w;
                lemma_root_least(s, i);
            }
            assert forall|id: usize| self@.dom().contains(id) implies le(
                s[0].0,
                #[trigger] self@[id],
            ) by {
                let p = resolve(self.table(), id).unwrap();
                lemma_root_least(s, p as int);
            }
        }
    }
}

impl<T: Ord> View for Heap<T> {
    type V = Map<usize, T>;

    /// The live handles, each with the value that it names.
    open spec fn view(&self) -> Map<usize, T> {
        model(self.entries(), self.table())
    }
}

} // verus!
