//! Exchanging two elements of a sequence, and what that does to the
//! multiset of its elements.

use vstd::multiset::Multiset;
use vstd::prelude::*;
use vstd::seq_lib::{
    lemma_multiset_commutative, to_multiset_insert, to_multiset_len, to_multiset_update,
};

verus! {

/// `s` with the elements at `i` and `j` exchanged.
pub open spec fn swapped<T>(s: Seq<T>, i: int, j: int) -> Seq<T> {
    s.update(i, s[j]).update(j, s[i])
}

/// `a` and `b` agree at every position outside `[lo, hi)`.
pub open spec fn same_outside<T>(a: Seq<T>, b: Seq<T>, lo: int, hi: int) -> bool {
    &&& a.len() == b.len()
    &&& forall|x: int| 0 <= x < a.len() && !(lo <= x < hi) ==> #[trigger] a[x] == b[x]
}

/// Exchanging two elements keeps the length of a sequence and the multiset
/// of its elements.
pub proof fn lemma_swapped_multiset<T>(s: Seq<T>, i: int, j: int)
    requires
        0 <= i < s.len(),
        0 <= j < s.len(),
    ensures
        swapped(s, i, j).len() == s.len(),
        swapped(s, i, j).to_multiset() == s.to_multiset(),
{
    broadcast use vstd::multiset::group_multiset_axioms;

    let mid = s.update(i, s[j]);
    to_multiset_update(s, i, s[j]);
    to_multiset_update(mid, j, s[i]);
    s.to_multiset_ensures();
    assert(s.contains(s[i]));
    assert(s.contains(s[j]));
    assert(swapped(s, i, j).to_multiset() =~= s.to_multiset());
}

/// Exchanging two elements inside `[lo, hi)` keeps the multiset of that
/// range.
pub proof fn lemma_swapped_subrange<T>(s: Seq<T>, lo: int, hi: int, i: int, j: int)
    requires
        0 <= lo <= i < hi <= s.len(),
        lo <= j < hi,
    ensures
        swapped(s, i, j).subrange(lo, hi).to_multiset() == s.subrange(lo, hi).to_multiset(),
        same_outside(s, swapped(s, i, j), lo, hi),
{
    let part = s.subrange(lo, hi);
    lemma_swapped_multiset(part, i - lo, j - lo);
    assert(swapped(s, i, j).subrange(lo, hi) =~= swapped(part, i - lo, j - lo));
}

/// A sequence without elements has the empty multiset of elements.
pub proof fn lemma_empty_multiset<T>(s: Seq<T>)
    requires
        s.len() == 0,
    ensures
        s.to_multiset() == Multiset::<T>::empty(),
{
    broadcast use vstd::multiset::group_multiset_axioms;

    to_multiset_len(s);
    vstd::multiset::lemma_multiset_empty_len(s.to_multiset());
    assert(s.to_multiset() =~= Multiset::<T>::empty());
}

/// Putting an element in front of a sequence adds it to the multiset of
/// elements.
pub proof fn lemma_cons_multiset<T>(x: T, s: Seq<T>)
    ensures
        (seq![x] + s).to_multiset() == s.to_multiset().insert(x),
{
    to_multiset_insert(s, 0, x);
    assert(seq![x] + s =~= s.insert(0, x));
}

/// Every element of a sequence occurs in every sequence with the same
/// multiset of elements.
pub proof fn lemma_same_multiset_contains<T>(a: Seq<T>, b: Seq<T>, i: int)
    requires
        a.to_multiset() == b.to_multiset(),
        0 <= i < a.len(),
    ensures
        exists|j: int| 0 <= j < b.len() && b[j] == a[i],
        a.len() == b.len(),
{
    a.to_multiset_ensures();
    b.to_multiset_ensures();
    assert(a.contains(a[i]));
    assert(a.to_multiset().count(a[i]) > 0);
    assert(b.to_multiset().count(a[i]) > 0);
    assert(b.contains(a[i]));
}

/// Every element of the range `[lo, hi)` of `b` occurs in the same range of
/// `a`, where the two ranges hold the same elements.
pub proof fn lemma_range_element<T>(a: Seq<T>, b: Seq<T>, lo: int, hi: int, x: int)
    requires
        0 <= lo <= x < hi <= a.len(),
        a.len() == b.len(),
        a.subrange(lo, hi).to_multiset() == b.subrange(lo, hi).to_multiset(),
    ensures
        exists|y: int| lo <= y < hi && a[y] == b[x],
{
    lemma_same_multiset_contains(b.subrange(lo, hi), a.subrange(lo, hi), x - lo);
    let z = choose|z: int|
        0 <= z < a.subrange(lo, hi).len() && a.subrange(lo, hi)[z] == b.subrange(lo, hi)[x - lo];
    assert(a[lo + z] == b[x]);
}

/// What holds of every element of a range still holds of every element once
/// the elements of the range have been put in another order.
pub proof fn lemma_range_all<T>(a: Seq<T>, b: Seq<T>, lo: int, hi: int, holds: spec_fn(T) -> bool)
    requires
        0 <= lo <= hi <= a.len(),
        a.len() == b.len(),
        a.subrange(lo, hi).to_multiset() == b.subrange(lo, hi).to_multiset(),
        forall|x: int| lo <= x < hi ==> holds(#[trigger] a[x]),
    ensures
        forall|x: int| lo <= x < hi ==> holds(#[trigger] b[x]),
{
    assert forall|x: int| lo <= x < hi implies holds(#[trigger] b[x]) by {
        lemma_range_element(a, b, lo, hi, x);
    }
}

/// Two sequences that hold the same elements in a range and agree outside
/// it hold the same elements in every wider range.
pub proof fn lemma_range_widen<T>(a: Seq<T>, b: Seq<T>, lo: int, hi: int, from: int, to: int)
    requires
        0 <= from <= lo <= hi <= to <= a.len(),
        same_outside(a, b, lo, hi),
        a.subrange(lo, hi).to_multiset() == b.subrange(lo, hi).to_multiset(),
    ensures
        a.subrange(from, to).to_multiset() == b.subrange(from, to).to_multiset(),
        same_outside(a, b, from, to),
{
    let front = a.subrange(from, lo);
    let back = a.subrange(hi, to);
    assert(front =~= b.subrange(from, lo));
    assert(back =~= b.subrange(hi, to));
    assert(a.subrange(from, to) =~= front + a.subrange(lo, hi) + back);
    assert(b.subrange(from, to) =~= front + b.subrange(lo, hi) + back);
    lemma_multiset_commutative(front, a.subrange(lo, hi));
    lemma_multiset_commutative(front, b.subrange(lo, hi));
    lemma_multiset_commutative(front + a.subrange(lo, hi), back);
    lemma_multiset_commutative(front + b.subrange(lo, hi), back);
}

} // verus!
