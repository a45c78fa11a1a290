//! The order on the queue's elements, as the proofs see it.
//!
//! Elements are compared with the operators of `Ord`. The predicates here give
//! that comparison a name in specifications and state the laws of a total
//! preorder that the heap relies on.

use core::cmp::Ordering;
use vstd::laws_cmp::*;
use vstd::laws_eq::*;
use vstd::prelude::*;
use vstd::std_specs::cmp::{OrdSpec, PartialEqSpec, PartialOrdSpec};

verus! {

/// The comparison operators of `T` are specified and form a total order.
///
/// For the integer types, and for tuples, references and options of types
/// that have it, this is what vstd's `group_laws_cmp` proves.
pub open spec fn total_order<T: Ord>() -> bool {
    obeys_cmp::<T>()
}

/// `a` is ordered strictly before `b`.
pub open spec fn lt<T: Ord>(a: T, b: T) -> bool {
    a.cmp_spec(&b) == Ordering::Less
}

/// `a` is ordered before `b`, or the two are tied.
pub open spec fn le<T: Ord>(a: T, b: T) -> bool {
    !lt(b, a)
}

/// Every element is tied with itself.
pub proof fn lemma_le_reflexive<T: Ord>(a: T)
    requires
        total_order::<T>(),
    ensures
        le(a, a),
{
    reveal(obeys_cmp_partial_ord);
    reveal(obeys_cmp_ord);
    reveal(obeys_partial_cmp_spec_properties);
    assert(a.partial_cmp_spec(&a) == Some(a.cmp_spec(&a)));
}

/// Any two elements are comparable, and `lt` is the strict part of `le`.
pub proof fn lemma_le_total<T: Ord>(a: T, b: T)
    requires
        total_order::<T>(),
    ensures
        le(a, b) || le(b, a),
        lt(a, b) ==> le(a, b),
{
    reveal(obeys_cmp_partial_ord);
    reveal(obeys_cmp_ord);
    reveal(obeys_partial_cmp_spec_properties);
    assert(a.partial_cmp_spec(&b) == Some(a.cmp_spec(&b)));
    assert(b.partial_cmp_spec(&a) == Some(b.cmp_spec(&a)));
}

/// `le` is transitive.
pub proof fn lemma_le_transitive<T: Ord>(a: T, b: T, c: T)
    requires
        total_order::<T>(),
        le(a, b),
        le(b, c),
    ensures
        le(a, c),
{
    reveal(obeys_cmp_partial_ord);
    reveal(obeys_cmp_ord);
    reveal(obeys_partial_cmp_spec_properties);
    reveal(obeys_eq_spec_properties);
    assert(a.partial_cmp_spec(&b) == Some(a.cmp_spec(&b)));
    assert(b.partial_cmp_spec(&a) == Some(b.cmp_spec(&a)));
    assert(b.partial_cmp_spec(&c) == Some(b.cmp_spec(&c)));
    assert(c.partial_cmp_spec(&b) == Some(c.cmp_spec(&b)));
    assert(a.partial_cmp_spec(&c) == Some(a.cmp_spec(&c)));
    assert(c.partial_cmp_spec(&a) == Some(c.cmp_spec(&a)));
}

/// Compares two elements with `<`.
pub fn less<T: Ord>(a: &T, b: &T) -> (r: bool)
    requires
        total_order::<T>(),
    ensures
        r == lt(*a, *b),
{
    proof {
        reveal(obeys_cmp_partial_ord);
        reveal(obeys_cmp_ord);
        assert(a.partial_cmp_spec(b) == Some(a.cmp_spec(b)));
    }
    *a < *b
}

} // verus!
