//! The handle table: a slab of entries whose unused ones form a free list.
//!
//! An identifier is an index into the table. The entry of a live handle
//! holds the index of the record that the handle names; an unused entry
//! holds the identifier of the next unused one.

use vstd::prelude::*;

verus! {

/// One entry of the handle table.
///
/// A `Full` entry holds what its handle currently resolves to. An `Empty`
/// entry is unused and names the next unused entry after it.
pub enum SlabSlot<T> {
    Empty { next: usize },
    Full { value: T },
}

/// The number of `Full` entries in a table.
pub open spec fn count_full<T>(slab: Seq<SlabSlot<T>>) -> nat
    decreases slab.len(),
{
    if slab.len() == 0 {
        0
    } else {
        count_full(slab.drop_last()) + if slab.last() is Full {
            1nat
        } else {
            0nat
        }
    }
}

/// Appending an entry raises the count by one exactly when the entry is `Full`.
pub proof fn lemma_count_full_push<T>(slab: Seq<SlabSlot<T>>, slot: SlabSlot<T>)
    ensures
        count_full(slab.push(slot)) == count_full(slab) + if slot is Full {
            1nat
        } else {
            0nat
        },
{
    assert(slab.push(slot).drop_last() =~= slab);
}

/// Overwriting an entry changes the count by what the entry gained or lost.
pub proof fn lemma_count_full_update<T>(slab: Seq<SlabSlot<T>>, i: int, slot: SlabSlot<T>)
    requires
        0 <= i < slab.len(),
    ensures
        count_full(slab.update(i, slot)) + (if slab[i] is Full {
            1nat
        } else {
            0nat
        }) == count_full(slab) + if slot is Full {
            1nat
        } else {
            0nat
        },
    decreases slab.len(),
{
    if i == slab.len() - 1 {
        assert(slab.update(i, slot).drop_last() =~= slab.drop_last());
    } else {
        assert(slab.update(i, slot).drop_last() =~= slab.drop_last().update(i, slot));
        lemma_count_full_update(slab.drop_last(), i, slot);
    }
}

/// A table never holds more `Full` entries than it has entries.
pub proof fn lemma_count_full_bound<T>(slab: Seq<SlabSlot<T>>)
    ensures
        count_full(slab) <= slab.len(),
    decreases slab.len(),
{
    if slab.len() > 0 {
        lemma_count_full_bound(slab.drop_last());
    }
}

/// What the handle `id` resolves to in the table `index`.
pub open spec fn resolve(index: Seq<SlabSlot<usize>>, id: usize) -> Option<usize> {
    if id < index.len() {
        match index[id as int] {
            SlabSlot::Full { value } => Some(value),
            SlabSlot::Empty { .. } => None,
        }
    } else {
        None
    }
}

/// The unused entry `free[k]` links to the identifier after it on the list,
/// or to the table's length if it is the last.
pub open spec fn link_ok(index: Seq<SlabSlot<usize>>, free: Seq<usize>, k: int) -> bool {
    &&& free[k] < index.len()
    &&& index[free[k] as int] == (SlabSlot::<usize>::Empty {
        next: if k + 1 < free.len() {
            free[k + 1]
        } else {
            index.len() as usize
        },
    })
}

/// `free` lists the unused entries of `index`, each once, in the order in
/// which the entries link to one another, starting at `head`.
pub open spec fn threaded(index: Seq<SlabSlot<usize>>, head: usize, free: Seq<usize>) -> bool {
    &&& index.len() <= usize::MAX
    &&& free.no_duplicates()
    &&& head == if free.len() > 0 {
        free[0]
    } else {
        index.len() as usize
    }
    &&& forall|k: int| 0 <= k < free.len() ==> #[trigger] link_ok(index, free, k)
    &&& forall|id: usize|
        id < index.len() && #[trigger] resolve(index, id) is None ==> free.contains(id)
}

/// The head of the free list is an unused entry, or the table's length if
/// the list is empty.
pub proof fn lemma_free_head(index: Seq<SlabSlot<usize>>, head: usize, free: Seq<usize>)
    requires
        threaded(index, head, free),
    ensures
        head <= index.len(),
        head == index.len() <==> free.len() == 0,
        resolve(index, head) is None,
{
    if free.len() > 0 {
        assert(link_ok(index, free, 0));
    }
}

/// Filling the head of the free list leaves the rest of the list.
pub proof fn lemma_free_take(index: Seq<SlabSlot<usize>>, head: usize, free: Seq<usize>, pos: usize)
    requires
        threaded(index, head, free),
        free.len() > 0,
    ensures
        head < index.len(),
        index[head as int] is Empty,
        threaded(
            index.update(head as int, SlabSlot::Full { value: pos }),
            index[head as int]->next,
            free.drop_first(),
        ),
{
    assert(link_ok(index, free, 0));
    let index2 = index.update(head as int, SlabSlot::Full { value: pos });
    let rest = free.drop_first();
    if rest.len() > 0 {
        assert(link_ok(index, free, 1));
    }
    assert forall|k: int| 0 <= k < rest.len() implies #[trigger] link_ok(index2, rest, k) by {
        assert(link_ok(index, free, k + 1));
        assert(free[k + 1] != free[0]);
    }
    assert forall|id: usize| id < index2.len() && #[trigger] resolve(index2, id) is None implies rest.contains(
        id,
    ) by {
        assert(resolve(index, id) is None);
        let k = choose|k: int| 0 <= k < free.len() && free[k] == id;
        assert(rest[k - 1] == id);
    }
}

/// Emptying an occupied entry and linking it to the old head puts it at the
/// front of the free list.
pub proof fn lemma_free_give(index: Seq<SlabSlot<usize>>, head: usize, free: Seq<usize>, id: usize)
    requires
        threaded(index, head, free),
        resolve(index, id) is Some,
    ensures
        threaded(index.update(id as int, SlabSlot::Empty { next: head }), id, seq![id] + free),
{
    let index2 = index.update(id as int, SlabSlot::Empty { next: head });
    let free2 = seq![id] + free;
    assert forall|k: int| 0 <= k < free.len() implies free[k] != id by {
        assert(link_ok(index, free, k));
    }
    assert forall|k: int| 0 <= k < free2.len() implies #[trigger] link_ok(index2, free2, k) by {
        if k > 0 {
            assert(link_ok(index, free, k - 1));
            assert(free2[k] == free[k - 1]);
            if k + 1 < free2.len() {
                assert(free2[k + 1] == free[k]);
            }
        }
    }
    assert forall|other: usize|
        other < index2.len() && #[trigger] resolve(index2, other) is None implies free2.contains(other) by {
        if other == id {
            assert(free2[0] == id);
        } else {
            assert(resolve(index, other) is None);
            let k = choose|k: int| 0 <= k < free.len() && free[k] == other;
            assert(free2[k + 1] == other);
        }
    }
}

/// The free list does not depend on what the occupied entries hold.
pub proof fn lemma_free_frame(
    index: Seq<SlabSlot<usize>>,
    index2: Seq<SlabSlot<usize>>,
    head: usize,
    free: Seq<usize>,
)
    requires
        threaded(index, head, free),
        index2.len() == index.len(),
        forall|j: int| 0 <= j < index.len() && index[j] is Empty ==> #[trigger] index2[j] == index[j],
        forall|j: int| 0 <= j < index.len() && index[j] is Full ==> #[trigger] index2[j] is Full,
    ensures
        threaded(index2, head, free),
{
    assert forall|k: int| 0 <= k < free.len() implies #[trigger] link_ok(index2, free, k) by {
        assert(link_ok(index, free, k));
        assert(index2[free[k] as int] == index[free[k] as int]);
    }
    assert forall|id: usize| id < index2.len() && #[trigger] resolve(index2, id) is None implies free.contains(
        id,
    ) by {
        assert(index2[id as int] is Empty);
        assert(resolve(index, id) is None);
    }
}

/// Overwrites what the `Full` entry `slab_slot` holds.
pub fn set_index<T>(slab: &mut [SlabSlot<T>], slab_slot: usize, val: T)
    requires
        slab_slot < old(slab)@.len(),
        old(slab)@[slab_slot as int] is Full,
    ensures
        final(slab)@ == old(slab)@.update(slab_slot as int, SlabSlot::Full { value: val }),
{
    match slab[slab_slot] {
        SlabSlot::Full { ref mut value } => *value = val,
        SlabSlot::Empty { .. } => {},
    }
}

} // verus!
