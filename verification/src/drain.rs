//! What a run of insertions followed by removals of the least value yields.
//!
//! The laws here speak of the values in a queue as a multiset, the way the
//! contracts of `Heap::push` and `Heap::pop` do, so that they hold of any run
//! of those calls.

use crate::order::{le, total_order};
use vstd::multiset::Multiset;
use vstd::prelude::*;

verus! {

/// One removal of a least value: from an empty `pre` nothing comes out and
/// nothing changes; otherwise `out` is a value of `pre` that none is ordered
/// strictly before, and `post` is `pre` without one instance of it.
pub open spec fn pops<T: Ord>(pre: Multiset<T>, post: Multiset<T>, out: Option<T>) -> bool {
    match out {
        None => pre.len() == 0 && post == pre,
        Some(v) => {
            &&& pre.contains(v)
            &&& post == pre.remove(v)
            &&& forall|w: T| #[trigger] pre.contains(w) ==> le(v, w)
        },
    }
}

/// A run of removals: `bags[k]` holds the values before the removal that
/// gave `outs[k]`, and `bags[k + 1]` those after it.
pub open spec fn drains<T: Ord>(bags: Seq<Multiset<T>>, outs: Seq<Option<T>>) -> bool {
    &&& bags.len() == outs.len() + 1
    &&& forall|k: int| 0 <= k < outs.len() ==> pops(bags[k], bags[k + 1], #[trigger] outs[k])
}

/// A run of insertions into an empty queue: `bags[k]` holds the values
/// before `vals[k]` went in, and `bags[k + 1]` those after it.
pub open spec fn loads<T>(bags: Seq<Multiset<T>>, vals: Seq<T>) -> bool {
    &&& bags.len() == vals.len() + 1
    &&& bags[0] == Multiset::<T>::empty()
    &&& forall|k: int| 0 <= k < vals.len() ==> bags[k + 1] == bags[k].insert(#[trigger] vals[k])
}

/// The values that a run of removals gave, in the order in which they came.
pub open spec fn yielded<T>(outs: Seq<Option<T>>) -> Seq<T> {
    outs.map_values(|o: Option<T>| o.unwrap())
}

/// Before the `k`-th removal of a run, what is left is part of what was
/// there at the start, with one value fewer for each removal so far.
proof fn lemma_drain_left<T: Ord>(bags: Seq<Multiset<T>>, outs: Seq<Option<T>>, k: int)
    requires
        drains(bags, outs),
        0 <= k <= outs.len(),
    ensures
        bags[k].subset_of(bags[0]),
        bags[k].len() == if k <= bags[0].len() {
            bags[0].len() - k
        } else {
            0
        },
        k > 0 ==> (outs[k - 1] is Some <==> k - 1 < bags[0].len()),
        k <= bags[0].len() ==> bags[0] == bags[k].add(yielded(outs).take(k).to_multiset()),
    decreases k,
{
    broadcast use vstd::multiset::group_multiset_axioms;

    if k == 0 {
        assert(yielded(outs).take(0) =~= Seq::<T>::empty());
        vstd::seq_lib::to_multiset_len(Seq::<T>::empty());
        assert(bags[0] =~= bags[0].add(Seq::<T>::empty().to_multiset()));
    } else {
        lemma_drain_left(bags, outs, k - 1);
        assert(pops(bags[k - 1], bags[k], outs[k - 1]));
        let got = yielded(outs).take(k - 1);
        match outs[k - 1] {
            None => {},
            Some(v) => {
                assert(yielded(outs).take(k) =~= got.push(v));
                vstd::seq_lib::to_multiset_build(got, v);
                assert(bags[k].subset_of(bags[k - 1]));
                assert(bags[0] =~= bags[k].add(got.to_multiset().insert(v)));
            },
        }
    }
}

/// Popping again and again yields the values of the queue from the least
/// upwards, one for each value that was in the queue, and after that
/// nothing.
pub proof fn lemma_drain_sorted<T: Ord>(bags: Seq<Multiset<T>>, outs: Seq<Option<T>>)
    requires
        total_order::<T>(),
        drains(bags, outs),
    ensures
        forall|k: int| 0 <= k < outs.len() ==> (#[trigger] outs[k] is Some <==> k < bags[0].len()),
        forall|i: int, j: int|
            0 <= i <= j < outs.len() && j < bags[0].len() ==> le(
                (#[trigger] outs[i]).unwrap(),
                (#[trigger] outs[j]).unwrap(),
            ),
{
    assert forall|k: int| 0 <= k < outs.len() implies (#[trigger] outs[k] is Some <==> k
        < bags[0].len()) by {
        lemma_drain_left(bags, outs, k + 1);
    }
    assert forall|i: int, j: int| 0 <= i <= j < outs.len() && j < bags[0].len() implies le(
        (#[trigger] outs[i]).unwrap(),
        (#[trigger] outs[j]).unwrap(),
    ) by {
        lemma_drain_between(bags, outs, i, j);
        lemma_drain_left(bags, outs, i + 1);
        lemma_drain_left(bags, outs, j + 1);
        assert(pops(bags[i], bags[i + 1], outs[i]));
        assert(pops(bags[j], bags[j + 1], outs[j]));
        assert(bags[j].contains(outs[j].unwrap()));
        assert(bags[i].contains(outs[j].unwrap()));
    }
}

/// What is left before a later removal was there before every earlier one.
proof fn lemma_drain_between<T: Ord>(bags: Seq<Multiset<T>>, outs: Seq<Option<T>>, i: int, j: int)
    requires
        drains(bags, outs),
        0 <= i <= j <= outs.len(),
    ensures
        bags[j].subset_of(bags[i]),
    decreases j - i,
{
    broadcast use vstd::multiset::group_multiset_axioms;

    if i < j {
        lemma_drain_between(bags, outs, i, j - 1);
        assert(pops(bags[j - 1], bags[j], outs[j - 1]));
        assert(bags[j].subset_of(bags[j - 1]));
    }
}

/// Inserting values one by one into an empty queue and then popping as many
/// times yields exactly the inserted values, from the least upwards, and
/// leaves the queue empty.
pub proof fn lemma_round_trip<T: Ord>(
    vals: Seq<T>,
    loaded: Seq<Multiset<T>>,
    bags: Seq<Multiset<T>>,
    outs: Seq<Option<T>>,
)
    requires
        total_order::<T>(),
        loads(loaded, vals),
        bags[0] == loaded.last(),
        drains(bags, outs),
        outs.len() == vals.len(),
    ensures
        forall|k: int| 0 <= k < outs.len() ==> #[trigger] outs[k] is Some,
        forall|i: int, j: int|
            0 <= i <= j < outs.len() ==> le((#[trigger] outs[i]).unwrap(), (#[trigger] outs[j]).unwrap()),
        yielded(outs).to_multiset() == vals.to_multiset(),
        bags.last().len() == 0,
{
    broadcast use vstd::multiset::group_multiset_axioms;

    lemma_loaded(loaded, vals, vals.len() as int);
    assert(vals.take(vals.len() as int) =~= vals);
    vstd::seq_lib::to_multiset_len(vals);
    lemma_drain_sorted(bags, outs);
    lemma_drain_left(bags, outs, outs.len() as int);
    assert(yielded(outs).take(outs.len() as int) =~= yielded(outs));
    assert(bags[0] =~= yielded(outs).to_multiset());
}

/// After the first `k` insertions of a run the queue holds the first `k`
/// values.
proof fn lemma_loaded<T>(bags: Seq<Multiset<T>>, vals: Seq<T>, k: int)
    requires
        loads(bags, vals),
        0 <= k <= vals.len(),
    ensures
        bags[k] == vals.take(k).to_multiset(),
    decreases k,
{
    broadcast use vstd::multiset::group_multiset_axioms;

    if k == 0 {
        assert(vals.take(0) =~= Seq::<T>::empty());
        vstd::seq_lib::to_multiset_len(Seq::<T>::empty());
        assert(bags[0] =~= vals.take(0).to_multiset());
    } else {
        lemma_loaded(bags, vals, k - 1);
        assert(bags[k] == bags[k - 1].insert(vals[k - 1]));
        assert(vals.take(k) =~= vals.take(k - 1).push(vals[k - 1]));
        vstd::seq_lib::to_multiset_build(vals.take(k - 1), vals[k - 1]);
    }
}

} // verus!
