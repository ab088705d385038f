//! Top-down merge sort with one work array: each run is split in two, the
//! halves are sorted from one array into the other, and merged back.

use crate::order::{le, lemma_le_total, lemma_le_trans, sorted, total_order};
use crate::permutation::{lemma_cons_multiset, lemma_empty_multiset, same_outside};
use vstd::multiset::Multiset;
use vstd::prelude::*;
use vstd::seq_lib::lemma_multiset_commutative;
use vstd::slice::slice_to_vec;

verus! {

/// The two runs merged into one: the head of the left run is taken while it
/// is not ordered after the head of the right run, so that level elements
/// keep the order in which the runs hold them.
pub open spec fn merged<T: Ord>(left: Seq<T>, right: Seq<T>) -> Seq<T>
    decreases left.len() + right.len(),
{
    if left.len() > 0 && (right.len() == 0 || le(left[0], right[0])) {
        seq![left[0]] + merged(left.drop_first(), right)
    } else if right.len() > 0 {
        seq![right[0]] + merged(left, right.drop_first())
    } else {
        Seq::empty()
    }
}

/// What the sort makes of `s`: a sequence of fewer than two elements is
/// left as it is, and a longer one is split in the middle, its halves are
/// sorted, and the two are merged.
pub open spec fn merge_sorted<T: Ord>(s: Seq<T>) -> Seq<T>
    decreases s.len(),
{
    if s.len() <= 1 {
        s
    } else {
        let middle = (s.len() / 2) as int;
        merged(
            merge_sorted(s.subrange(0, middle)),
            merge_sorted(s.subrange(middle, s.len() as int)),
        )
    }
}

/// Merging two runs keeps every element of both and adds none.
pub proof fn lemma_merged_permutes<T: Ord>(left: Seq<T>, right: Seq<T>)
    ensures
        merged(left, right).len() == left.len() + right.len(),
        merged(left, right).to_multiset() == left.to_multiset().add(right.to_multiset()),
    decreases left.len() + right.len(),
{
    broadcast use vstd::multiset::group_multiset_axioms;

    if left.len() > 0 && (right.len() == 0 || le(left[0], right[0])) {
        let rest = left.drop_first();
        lemma_merged_permutes(rest, right);
        lemma_cons_multiset(left[0], merged(rest, right));
        lemma_cons_multiset(left[0], rest);
        assert(left =~= seq![left[0]] + rest);
        assert(merged(left, right).to_multiset() =~= left.to_multiset().add(
            right.to_multiset(),
        ));
    } else if right.len() > 0 {
        let rest = right.drop_first();
        lemma_merged_permutes(left, rest);
        lemma_cons_multiset(right[0], merged(left, rest));
        lemma_cons_multiset(right[0], rest);
        assert(right =~= seq![right[0]] + rest);
        assert(merged(left, right).to_multiset() =~= left.to_multiset().add(
            right.to_multiset(),
        ));
    } else {
        lemma_empty_multiset(left);
        lemma_empty_multiset(right);
        lemma_empty_multiset(merged(left, right));
        assert(merged(left, right).to_multiset() =~= left.to_multiset().add(
            right.to_multiset(),
        ));
    }
}

/// What is ordered before no element of either run is ordered before no
/// element of the merged run.
pub proof fn lemma_merged_bounded<T: Ord>(left: Seq<T>, right: Seq<T>, bound: T)
    requires
        forall|i: int| 0 <= i < left.len() ==> le(bound, #[trigger] left[i]),
        forall|i: int| 0 <= i < right.len() ==> le(bound, #[trigger] right[i]),
    ensures
        forall|i: int|
            0 <= i < merged(left, right).len() ==> le(bound, #[trigger] merged(left, right)[i]),
    decreases left.len() + right.len(),
{
    if left.len() > 0 && (right.len() == 0 || le(left[0], right[0])) {
        let rest = left.drop_first();
        assert forall|i: int| 0 <= i < rest.len() implies le(bound, #[trigger] rest[i]) by {
            assert(rest[i] == left[i + 1]);
        }
        lemma_merged_bounded(rest, right, bound);
        let out = merged(left, right);
        let tail = merged(rest, right);
        assert forall|i: int| 0 <= i < out.len() implies le(bound, #[trigger] out[i]) by {
            if i > 0 {
                assert(out[i] == tail[i - 1]);
            } else {
                assert(out[i] == left[0]);
            }
        }
    } else if right.len() > 0 {
        let rest = right.drop_first();
        assert forall|i: int| 0 <= i < rest.len() implies le(bound, #[trigger] rest[i]) by {
            assert(rest[i] == right[i + 1]);
        }
        lemma_merged_bounded(left, rest, bound);
        let out = merged(left, right);
        let tail = merged(left, rest);
        assert forall|i: int| 0 <= i < out.len() implies le(bound, #[trigger] out[i]) by {
            if i > 0 {
                assert(out[i] == tail[i - 1]);
            } else {
                assert(out[i] == right[0]);
            }
        }
    }
}

/// Merging two sorted runs gives a sorted run.
pub proof fn lemma_merged_sorted<T: Ord>(left: Seq<T>, right: Seq<T>)
    requires
        total_order::<T>(),
        sorted(left),
        sorted(right),
    ensures
        sorted(merged(left, right)),
    decreases left.len() + right.len(),
{
    let out = merged(left, right);
    if left.len() > 0 && (right.len() == 0 || le(left[0], right[0])) {
        let rest = left.drop_first();
        let head = left[0];
        assert forall|i: int, j: int| 0 <= i < j < rest.len() implies le(
            #[trigger] rest[i],
            #[trigger] rest[j],
        ) by {
            assert(rest[i] == left[i + 1] && rest[j] == left[j + 1]);
        }
        lemma_merged_sorted(rest, right);
        assert forall|i: int| 0 <= i < rest.len() implies le(head, #[trigger] rest[i]) by {
            assert(rest[i] == left[i + 1]);
        }
        assert forall|i: int| 0 <= i < right.len() implies le(head, #[trigger] right[i]) by {
            if i > 0 {
                lemma_le_trans(head, right[0], right[i]);
            }
        }
        lemma_merged_bounded(rest, right, head);
        let tail = merged(rest, right);
        assert forall|i: int, j: int| 0 <= i < j < out.len() implies le(
            #[trigger] out[i],
            #[trigger] out[j],
        ) by {
            if i > 0 {
                assert(le(tail[i - 1], tail[j - 1]));
            } else {
                assert(le(head, tail[j - 1]));
            }
        }
    } else if right.len() > 0 {
        let rest = right.drop_first();
        let head = right[0];
        assert forall|i: int, j: int| 0 <= i < j < rest.len() implies le(
            #[trigger] rest[i],
            #[trigger] rest[j],
        ) by {
            assert(rest[i] == right[i + 1] && rest[j] == right[j + 1]);
        }
        lemma_merged_sorted(left, rest);
        assert forall|i: int| 0 <= i < rest.len() implies le(head, #[trigger] rest[i]) by {
            assert(rest[i] == right[i + 1]);
        }
        assert forall|i: int| 0 <= i < left.len() implies le(head, #[trigger] left[i]) by {
            lemma_le_total(left[0], head);
            if i > 0 {
                lemma_le_trans(head, left[0], left[i]);
            }
        }
        lemma_merged_bounded(left, rest, head);
        let tail = merged(left, rest);
        assert forall|i: int, j: int| 0 <= i < j < out.len() implies le(
            #[trigger] out[i],
            #[trigger] out[j],
        ) by {
            if i > 0 {
                assert(le(tail[i - 1], tail[j - 1]));
            } else {
                assert(le(head, tail[j - 1]));
            }
        }
    }
}

/// The sort gives a sorted sequence that holds the elements it was given,
/// each as often as it was given.
pub proof fn lemma_merge_sorted_sorts<T: Ord>(s: Seq<T>)
    ensures
        merge_sorted(s).len() == s.len(),
        merge_sorted(s).to_multiset() == s.to_multiset(),
        total_order::<T>() ==> sorted(merge_sorted(s)),
    decreases s.len(),
{
    if s.len() > 1 {
        let middle = (s.len() / 2) as int;
        let front = s.subrange(0, middle);
        let back = s.subrange(middle, s.len() as int);
        lemma_merge_sorted_sorts(front);
        lemma_merge_sorted_sorts(back);
        lemma_merged_permutes(merge_sorted(front), merge_sorted(back));
        lemma_multiset_commutative(front, back);
        assert(s =~= front + back);
        if total_order::<T>() {
            lemma_merged_sorted(merge_sorted(front), merge_sorted(back));
        }
    }
}

/// Sorts the whole slice in place, in non-decreasing order, and hands it
/// back.
pub fn sort<T: Ord + Copy>(a: &mut [T]) -> (sorted_slice: &mut [T])
    ensures
        sorted_slice@.len() == old(a)@.len(),
        sorted_slice@.to_multiset() == old(a)@.to_multiset(),
        total_order::<T>() ==> sorted(sorted_slice@),
        total_order::<T>() ==> sorted_slice@ == merge_sorted(old(a)@),
        final(a)@ == final(sorted_slice)@,
{
    let size = a.len();

    if size <= 1 {
        proof {
            lemma_merge_sorted_sorts(a@);
        }
        return a;
    }

    // One time copy of `a[]` to `b[]`.
    let mut b = slice_to_vec(a);

    merge_sort(a, &mut b, size);
    a
}

/// Array `a[]` has the items to sort; array `b[]` is a work array that
/// starts out as a copy of it.
fn merge_sort<T: Ord + Copy>(a: &mut [T], b: &mut [T], n: usize)
    requires
        n == old(a)@.len(),
        old(b)@ == old(a)@,
    ensures
        final(a)@.len() == n,
        final(b)@.len() == n,
        final(a)@.to_multiset() == old(a)@.to_multiset(),
        total_order::<T>() ==> sorted(final(a)@),
        total_order::<T>() ==> final(a)@ == merge_sorted(old(a)@),
{
    // Sort data from `b[]` into `a[]`.
    split_merge(b, 0, n, a);
    proof {
        assert(a@.subrange(0, n as int) =~= a@);
        assert(old(a)@.subrange(0, n as int) =~= old(a)@);
    }
}

/// Sorts the run `[begin, end)` into `a[]`. Both arrays hold the run on
/// entry: it is split in two, both halves are sorted from `a[]` into `b[]`,
/// and the two are merged from `b[]` into `a[]`.
fn split_merge<T: Ord + Copy>(b: &mut [T], begin: usize, end: usize, a: &mut [T])
    requires
        begin <= end <= old(a)@.len(),
        old(a)@.len() == old(b)@.len(),
        old(b)@.subrange(begin as int, end as int) == old(a)@.subrange(begin as int, end as int),
    ensures
        same_outside(old(a)@, final(a)@, begin as int, end as int),
        same_outside(old(b)@, final(b)@, begin as int, end as int),
        final(a)@.subrange(begin as int, end as int).to_multiset() == old(a)@.subrange(
            begin as int,
            end as int,
        ).to_multiset(),
        total_order::<T>() ==> sorted(final(a)@.subrange(begin as int, end as int)),
        total_order::<T>() ==> final(a)@.subrange(begin as int, end as int) == merge_sorted(
            old(a)@.subrange(begin as int, end as int),
        ),
    decreases end - begin,
{
    let ghost run = a@.subrange(begin as int, end as int);
    proof {
        lemma_merge_sorted_sorts(run);
    }

    // If run size == 1, consider it sorted.
    if end - begin <= 1 {
        return;
    }

    // Split the run longer than 1 item into halves.
    // middle = mid point;
    let middle = begin + (end - begin) / 2;
    let ghost front = run.subrange(0, middle - begin);
    let ghost back = run.subrange(middle - begin, end - begin);
    proof {
        assert(a@.subrange(begin as int, middle as int) =~= front);
        assert(b@.subrange(begin as int, middle as int) =~= front);
        assert(a@.subrange(middle as int, end as int) =~= back);
        assert(b@.subrange(middle as int, end as int) =~= back);
        assert(middle - begin == run.len() / 2);
    }

    // Recursively sort both runs from array `a[]` into `b[]`.
    // Sort the left run.
    split_merge(a, begin, middle, b);
    proof {
        assert(a@.subrange(middle as int, end as int) =~= back);
        assert(b@.subrange(middle as int, end as int) =~= back);
    }
    let ghost front_done = b@.subrange(begin as int, middle as int);
    // Sort the right run.
    split_merge(a, middle, end, b);
    proof {
        assert(b@.subrange(begin as int, middle as int) =~= front_done);
    }

    // Merge the resulting runs from array `b[]` into `a[]`.
    merge(b, begin, middle, end, a);
    proof {
        let back_done = b@.subrange(middle as int, end as int);
        lemma_multiset_commutative(front_done, back_done);
        lemma_multiset_commutative(front, back);
        assert(b@.subrange(begin as int, end as int) =~= front_done + back_done);
        assert(run =~= front + back);
    }
}

/// Left source half is `a[begin, middle - 1]`.
///
/// Right source half is `a[middle, end - 1]`.
///
/// Result is `b[begin, end - 1]`.
fn merge<T: Ord + Copy>(a: &mut [T], begin: usize, middle: usize, end: usize, b: &mut [T])
    requires
        begin <= middle <= end <= old(a)@.len(),
        old(a)@.len() == old(b)@.len(),
    ensures
        final(a)@ == old(a)@,
        same_outside(old(b)@, final(b)@, begin as int, end as int),
        final(b)@.subrange(begin as int, end as int).to_multiset() == old(a)@.subrange(
            begin as int,
            end as int,
        ).to_multiset(),
        total_order::<T>() ==> final(b)@.subrange(begin as int, end as int) == merged(
            old(a)@.subrange(begin as int, middle as int),
            old(a)@.subrange(middle as int, end as int),
        ),
{
    let mut i = begin;
    let mut j = middle;
    let ghost left = a@.subrange(begin as int, middle as int);
    let ghost right = a@.subrange(middle as int, end as int);
    proof {
        broadcast use vstd::multiset::group_multiset_axioms;

        lemma_empty_multiset(b@.subrange(begin as int, begin as int));
        lemma_empty_multiset(a@.subrange(begin as int, begin as int));
        lemma_empty_multiset(a@.subrange(middle as int, middle as int));
        assert(Multiset::<T>::empty().add(Multiset::<T>::empty()) =~= Multiset::<T>::empty());
        assert(Seq::<T>::empty() + merged(left, right) =~= merged(left, right));
        assert(b@.subrange(begin as int, begin as int) =~= Seq::<T>::empty());
    }

    // While there are elements in the left or right runs...
    for k in begin..end
        invariant
            begin <= middle <= end <= a@.len(),
            a@ == old(a)@,
            a@.len() == b@.len(),
            left == a@.subrange(begin as int, middle as int),
            right == a@.subrange(middle as int, end as int),
            begin <= i <= middle,
            middle <= j <= end,
            i - begin + j - middle == k - begin,
            same_outside(old(b)@, b@, begin as int, end as int),
            b@.subrange(begin as int, k as int).to_multiset() == a@.subrange(
                begin as int,
                i as int,
            ).to_multiset().add(a@.subrange(middle as int, j as int).to_multiset()),
            total_order::<T>() ==> b@.subrange(begin as int, k as int) + merged(
                a@.subrange(i as int, middle as int),
                a@.subrange(j as int, end as int),
            ) == merged(left, right),
    {
        let ghost taken = b@.subrange(begin as int, k as int);
        let ghost left_rest = a@.subrange(i as int, middle as int);
        let ghost right_rest = a@.subrange(j as int, end as int);
        // If left run head exists and is <= existing right run head.
        if i < middle && (j >= end || a[i] <= a[j]) {
            b[k] = a[i];
            proof {
                assert(b@.subrange(begin as int, k + 1) =~= taken.push(a@[i as int]));
                assert(a@.subrange(begin as int, i + 1) =~= a@.subrange(
                    begin as int,
                    i as int,
                ).push(a@[i as int]));
                assert(left_rest.drop_first() =~= a@.subrange(i + 1, middle as int));
                assert(taken.push(a@[i as int]) + merged(left_rest.drop_first(), right_rest)
                    =~= taken + (seq![a@[i as int]] + merged(
                    left_rest.drop_first(),
                    right_rest,
                )));
            }
            i += 1;
        } else {
            b[k] = a[j];
            proof {
                assert(b@.subrange(begin as int, k + 1) =~= taken.push(a@[j as int]));
                assert(a@.subrange(middle as int, j + 1) =~= a@.subrange(
                    middle as int,
                    j as int,
                ).push(a@[j as int]));
                assert(right_rest.drop_first() =~= a@.subrange(j + 1, end as int));
                assert(taken.push(a@[j as int]) + merged(left_rest, right_rest.drop_first())
                    =~= taken + (seq![a@[j as int]] + merged(
                    left_rest,
                    right_rest.drop_first(),
                )));
            }
            j += 1;
        }
        proof {
            broadcast use vstd::seq_lib::group_to_multiset_ensures;
            broadcast use vstd::multiset::group_multiset_axioms;

            assert(b@.subrange(begin as int, k + 1).to_multiset() =~= a@.subrange(
                begin as int,
                i as int,
            ).to_multiset().add(a@.subrange(middle as int, j as int).to_multiset()));
        }
    }
    proof {
        assert(a@.subrange(begin as int, i as int) =~= left);
        assert(a@.subrange(middle as int, j as int) =~= right);
        lemma_multiset_commutative(left, right);
        assert(a@.subrange(begin as int, end as int) =~= left + right);
        if total_order::<T>() {
            assert(merged(a@.subrange(i as int, middle as int), a@.subrange(j as int, end as int))
                =~= Seq::<T>::empty());
            assert(b@.subrange(begin as int, end as int) + Seq::<T>::empty() =~= b@.subrange(
                begin as int,
                end as int,
            ));
        }
    }
}

} // verus!
