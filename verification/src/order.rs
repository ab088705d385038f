//! The order on elements that the heap and the sorting routines rely on.
//!
//! Everything here is stated over the comparison specifications that vstd
//! attaches to `PartialOrd` and `Ord`. The rest of the crate speaks only of
//! [`lt`], [`le`], [`gt`], [`equiv`] and [`total_order`], and draws the facts it needs
//! from the lemmas below.

use core::cmp::Ordering;
use vstd::laws_cmp::obeys_cmp;
use vstd::prelude::*;
use vstd::std_specs::cmp::{OrdSpec, PartialOrdSpec};

verus! {

/// `a` is ordered strictly before `b`.
pub open spec fn lt<T: Ord>(a: T, b: T) -> bool {
    a.partial_cmp_spec(&b) == Some(Ordering::Less)
}

/// `a` is ordered before `b` or level with it.
pub open spec fn le<T: Ord>(a: T, b: T) -> bool {
    a.partial_cmp_spec(&b) == Some(Ordering::Less) || a.partial_cmp_spec(&b) == Some(
        Ordering::Equal,
    )
}

/// `a` is ordered strictly after `b`.
pub open spec fn gt<T: Ord>(a: T, b: T) -> bool {
    a.partial_cmp_spec(&b) == Some(Ordering::Greater)
}

/// `a` and `b` are level: neither is ordered before the other.
pub open spec fn equiv<T: Ord>(a: T, b: T) -> bool {
    a.partial_cmp_spec(&b) == Some(Ordering::Equal)
}

/// The comparison operators of `T` are deterministic, agree with one another
/// and order all values of `T` totally.
pub open spec fn total_order<T: Ord>() -> bool {
    &&& T::obeys_partial_cmp_spec()
    &&& T::obeys_cmp_spec()
    &&& obeys_cmp::<T>()
}

/// Values that are level in the order are one and the same value.
pub open spec fn identity_order<T: Ord>() -> bool {
    forall|a: T, b: T| #[trigger] equiv(a, b) ==> a == b
}

/// `s` is in non-decreasing order.
pub open spec fn sorted<T: Ord>(s: Seq<T>) -> bool {
    forall|i: int, j: int| 0 <= i < j < s.len() ==> le(#[trigger] s[i], #[trigger] s[j])
}

/// A type that obeys vstd's comparison laws is totally ordered.
pub proof fn lemma_total_order_from_laws<T: Ord>()
    requires
        obeys_cmp::<T>(),
    ensures
        total_order::<T>(),
{
    reveal(vstd::laws_cmp::obeys_cmp_partial_ord);
    reveal(vstd::laws_cmp::obeys_cmp_ord);
}

/// `cmp` and the comparison operators tell the same story.
pub proof fn lemma_three_way<T: Ord>(a: T, b: T)
    requires
        total_order::<T>(),
    ensures
        a.cmp_spec(&b) == Ordering::Less <==> lt(a, b),
        a.cmp_spec(&b) == Ordering::Equal <==> equiv(a, b),
        a.cmp_spec(&b) == Ordering::Greater <==> lt(b, a),
{
    reveal(vstd::laws_cmp::obeys_cmp_ord);
    reveal(vstd::laws_cmp::obeys_partial_cmp_spec_properties);
}

/// Exactly one of `a < b`, `a ~ b`, `b < a` holds.
pub proof fn lemma_trichotomy<T: Ord>(a: T, b: T)
    requires
        total_order::<T>(),
    ensures
        lt(a, b) || equiv(a, b) || lt(b, a),
        !(lt(a, b) && equiv(a, b)),
        !(lt(a, b) && lt(b, a)),
        !(equiv(a, b) && lt(b, a)),
        equiv(a, b) <==> equiv(b, a),
        le(a, b) <==> !lt(b, a),
        gt(a, b) <==> lt(b, a),
{
    reveal(vstd::laws_cmp::obeys_cmp_ord);
    reveal(vstd::laws_cmp::obeys_cmp_partial_ord);
    reveal(vstd::laws_cmp::obeys_partial_cmp_spec_properties);
    reveal(vstd::laws_eq::obeys_eq_spec_properties);
}

/// Every value is level with itself.
pub proof fn lemma_le_refl<T: Ord>(a: T)
    requires
        total_order::<T>(),
    ensures
        equiv(a, a),
        le(a, a),
{
    lemma_trichotomy(a, a);
}

/// Of any two values one is ordered before the other, or they are level.
pub proof fn lemma_le_total<T: Ord>(a: T, b: T)
    requires
        total_order::<T>(),
    ensures
        le(a, b) || le(b, a),
        lt(a, b) ==> le(a, b),
{
    lemma_trichotomy(a, b);
}

/// `equiv` is transitive.
pub proof fn lemma_equiv_trans<T: Ord>(a: T, b: T, c: T)
    requires
        total_order::<T>(),
        equiv(a, b),
        equiv(b, c),
    ensures
        equiv(a, c),
{
    reveal(vstd::laws_cmp::obeys_cmp_partial_ord);
    reveal(vstd::laws_cmp::obeys_partial_cmp_spec_properties);
    reveal(vstd::laws_eq::obeys_eq_spec_properties);
}

/// `lt` is transitive.
pub proof fn lemma_lt_trans<T: Ord>(a: T, b: T, c: T)
    requires
        total_order::<T>(),
        lt(a, b),
        lt(b, c),
    ensures
        lt(a, c),
{
    reveal(vstd::laws_cmp::obeys_partial_cmp_spec_properties);
}

/// A strict step followed by a level one is a strict step, and the other
/// way round.
pub proof fn lemma_lt_equiv<T: Ord>(a: T, b: T, c: T)
    requires
        total_order::<T>(),
    ensures
        lt(a, b) && equiv(b, c) ==> lt(a, c),
        equiv(a, b) && lt(b, c) ==> lt(a, c),
{
    lemma_trichotomy(a, b);
    lemma_trichotomy(b, c);
    lemma_trichotomy(a, c);
    if lt(a, b) && equiv(b, c) {
        if equiv(a, c) {
            lemma_equiv_trans(a, c, b);
        }
        if lt(c, a) {
            lemma_lt_trans(c, a, b);
        }
    }
    if equiv(a, b) && lt(b, c) {
        if equiv(a, c) {
            lemma_equiv_trans(b, a, c);
        }
        if lt(c, a) {
            lemma_lt_trans(b, c, a);
        }
    }
}

/// `le` is transitive, and strict as soon as one of its two steps is.
pub proof fn lemma_le_trans<T: Ord>(a: T, b: T, c: T)
    requires
        total_order::<T>(),
        le(a, b),
        le(b, c),
    ensures
        le(a, c),
        lt(a, b) || lt(b, c) ==> lt(a, c),
{
    lemma_lt_equiv(a, b, c);
    if lt(a, b) && lt(b, c) {
        lemma_lt_trans(a, b, c);
    }
    if equiv(a, b) && equiv(b, c) {
        lemma_equiv_trans(a, b, c);
    }
}

/// In an order where level values are one and the same, two sorted sequences
/// with the same elements are the same sequence.
pub proof fn lemma_sorted_unique<T: Ord>(a: Seq<T>, b: Seq<T>)
    requires
        total_order::<T>(),
        identity_order::<T>(),
        sorted(a),
        sorted(b),
        a.to_multiset() == b.to_multiset(),
    ensures
        a == b,
{
    let leq = |x: T, y: T| le(x, y);
    assert(vstd::relations::total_ordering(leq)) by {
        assert forall|x: T| #[trigger] leq(x, x) by {
            lemma_le_refl(x);
        }
        assert forall|x: T, y: T| #[trigger] leq(x, y) && #[trigger] leq(y, x) implies x == y by {
            lemma_trichotomy(x, y);
            assert(equiv(x, y));
        }
        assert forall|x: T, y: T, z: T| #[trigger] leq(x, y) && #[trigger] leq(y, z) implies leq(
            x,
            z,
        ) by {
            lemma_le_trans(x, y, z);
        }
        assert forall|x: T, y: T| #[trigger] leq(x, y) || #[trigger] leq(y, x) by {
            lemma_le_total(x, y);
        }
    }
    assert(vstd::relations::sorted_by(a, leq));
    assert(vstd::relations::sorted_by(b, leq));
    vstd::seq_lib::lemma_sorted_unique(a, b, leq);
}

} // verus!
