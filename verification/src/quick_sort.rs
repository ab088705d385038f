//! Three-way quicksort: the range is divided about a pivot into the elements
//! ordered before it, those level with it and those ordered after it, and
//! the first and the last part are sorted in the same way.

use crate::order::{
    equiv, le, lemma_le_refl, lemma_le_trans, lemma_three_way, lemma_trichotomy, lt, sorted,
    total_order,
};
use crate::permutation::{
    lemma_range_all, lemma_range_widen, lemma_swapped_subrange, same_outside, swapped,
};
use core::cmp::Ordering;
use vstd::prelude::*;

verus! {

/// The element of `s` at index `i`.
spec fn item_at<T>(s: Seq<T>, i: usize) -> T {
    s[i as int]
}

/// `s` after the median of the elements at `lo`, at the middle of `lo` and
/// `hi`, and at `hi` has been brought to `hi`, by up to three exchanges.
pub open spec fn pivoted<T: Ord>(s: Seq<T>, lo: int, hi: int) -> Seq<T> {
    let mid = lo + (hi - lo) / 2;
    let first = if lt(s[mid], s[lo]) {
        swapped(s, lo, mid)
    } else {
        s
    };
    let second = if lt(first[hi], first[lo]) {
        swapped(first, lo, hi)
    } else {
        first
    };
    if lt(second[mid], second[hi]) {
        swapped(second, mid, hi)
    } else {
        second
    }
}

/// After the choice of pivot the element at `hi` is not ordered after the
/// one in the middle. In a range of three elements or more, where `lo` and
/// the middle are two places, it is the median of the three that were looked
/// at: the element at `lo` is not ordered after it either.
pub proof fn lemma_pivoted_is_median<T: Ord>(s: Seq<T>, lo: int, hi: int)
    requires
        total_order::<T>(),
        0 <= lo <= hi < s.len(),
    ensures
        le(pivoted(s, lo, hi)[hi], pivoted(s, lo, hi)[lo + (hi - lo) / 2]),
        hi - lo >= 2 ==> le(pivoted(s, lo, hi)[lo], pivoted(s, lo, hi)[hi]),
{
    let mid = lo + (hi - lo) / 2;
    lemma_le_refl(s[lo]);
    lemma_trichotomy(s[lo], s[mid]);
    lemma_trichotomy(s[lo], s[hi]);
    lemma_trichotomy(s[mid], s[hi]);
    lemma_trichotomy(s[mid], s[lo]);
    lemma_trichotomy(s[hi], s[lo]);
    lemma_trichotomy(s[hi], s[mid]);
    if le(s[lo], s[mid]) && le(s[mid], s[hi]) {
        lemma_le_trans(s[lo], s[mid], s[hi]);
    }
    if le(s[lo], s[hi]) && le(s[hi], s[mid]) {
        lemma_le_trans(s[lo], s[hi], s[mid]);
    }
    if le(s[mid], s[lo]) && le(s[lo], s[hi]) {
        lemma_le_trans(s[mid], s[lo], s[hi]);
    }
    if le(s[mid], s[hi]) && le(s[hi], s[lo]) {
        lemma_le_trans(s[mid], s[hi], s[lo]);
    }
    if le(s[hi], s[lo]) && le(s[lo], s[mid]) {
        lemma_le_trans(s[hi], s[lo], s[mid]);
    }
    if le(s[hi], s[mid]) && le(s[mid], s[lo]) {
        lemma_le_trans(s[hi], s[mid], s[lo]);
    }
}

/// Where the division of `[lo, hi]` about the element that `before` holds at
/// `hi` stands: `[lo, i)` is ordered before the pivot, `[i, j)` is level with
/// it, `[above, hi)` is ordered after it, and `[j, above)` is still to be
/// looked at. The pivot itself waits at `hi`.
spec fn partition_zones<T: Ord>(
    before: Seq<T>,
    now: Seq<T>,
    lo: usize,
    hi: usize,
    i: usize,
    j: usize,
    above: usize,
) -> bool {
    let pivot = before[hi as int];
    &&& lo <= i <= j <= above <= hi < now.len()
    &&& same_outside(before, now, lo as int, hi + 1)
    &&& now.subrange(lo as int, hi + 1).to_multiset() == before.subrange(
        lo as int,
        hi + 1,
    ).to_multiset()
    &&& now[hi as int] == pivot
    &&& total_order::<T>() ==> {
        &&& forall|x: int| lo <= x < i ==> lt(#[trigger] now[x], pivot)
        &&& forall|x: int| i <= x < j ==> equiv(#[trigger] now[x], pivot)
        &&& forall|x: int| above <= x < hi ==> lt(pivot, #[trigger] now[x])
    }
}

/// `after` is `before` with `[lo, hi]` divided about the element that
/// `before` holds at `hi`: `[lo, left)` is ordered before the pivot,
/// `[left, right]` is level with it and `(right, hi]` is ordered after it.
/// The pivot itself sits at `right`, and nothing outside `[lo, hi]` has moved.
pub open spec fn partitioned<T: Ord>(
    before: Seq<T>,
    after: Seq<T>,
    lo: usize,
    hi: usize,
    left: usize,
    right: usize,
) -> bool {
    let pivot = before[hi as int];
    &&& lo <= left <= right <= hi < after.len()
    &&& same_outside(before, after, lo as int, hi + 1)
    &&& after.subrange(lo as int, hi + 1).to_multiset() == before.subrange(
        lo as int,
        hi + 1,
    ).to_multiset()
    &&& after[right as int] == pivot
    &&& total_order::<T>() ==> {
        &&& forall|x: int| lo <= x < left ==> lt(#[trigger] after[x], pivot)
        &&& forall|x: int| left <= x <= right ==> equiv(#[trigger] after[x], pivot)
        &&& forall|x: int| right < x <= hi ==> lt(pivot, #[trigger] after[x])
    }
}

/// The element looked at is ordered before the pivot: it changes places with
/// the first of the level ones, and both lower zones move up by one.
proof fn lemma_zone_less<T: Ord>(
    before: Seq<T>,
    now: Seq<T>,
    lo: usize,
    hi: usize,
    i: usize,
    j: usize,
    above: usize,
)
    requires
        partition_zones(before, now, lo, hi, i, j, above),
        j < above,
        total_order::<T>() ==> lt(now[j as int], before[hi as int]),
    ensures
        partition_zones(
            before,
            swapped(now, i as int, j as int),
            lo,
            hi,
            (i + 1) as usize,
            (j + 1) as usize,
            above,
        ),
{
    let next = swapped(now, i as int, j as int);
    lemma_swapped_subrange(now, lo as int, hi + 1, i as int, j as int);
    if total_order::<T>() {
        assert forall|x: int| i + 1 <= x < j + 1 implies equiv(
            #[trigger] next[x],
            before[hi as int],
        ) by {
            if x == j {
                assert(next[x] == now[i as int]);
            } else {
                assert(next[x] == now[x]);
            }
        }
    }
}

/// The element looked at is ordered after the pivot: it changes places with
/// the last of those still to be looked at, and the upper zone grows by one.
proof fn lemma_zone_greater<T: Ord>(
    before: Seq<T>,
    now: Seq<T>,
    lo: usize,
    hi: usize,
    i: usize,
    j: usize,
    above: usize,
)
    requires
        partition_zones(before, now, lo, hi, i, j, above),
        j < above,
        total_order::<T>() ==> lt(before[hi as int], now[j as int]),
    ensures
        partition_zones(
            before,
            swapped(now, j as int, above - 1),
            lo,
            hi,
            i,
            j,
            (above - 1) as usize,
        ),
{
    let next = swapped(now, j as int, above - 1);
    lemma_swapped_subrange(now, lo as int, hi + 1, j as int, above - 1);
    if total_order::<T>() {
        assert forall|x: int| above - 1 <= x < hi implies lt(
            before[hi as int],
            #[trigger] next[x],
        ) by {
            if x == above - 1 {
                assert(next[x] == now[j as int]);
            } else {
                assert(next[x] == now[x]);
            }
        }
    }
}

/// Once nothing is left to look at, the pivot changes places with the first
/// element of the upper zone, and the range is divided.
proof fn lemma_zone_done<T: Ord>(
    before: Seq<T>,
    now: Seq<T>,
    lo: usize,
    hi: usize,
    i: usize,
    j: usize,
)
    requires
        partition_zones(before, now, lo, hi, i, j, j),
    ensures
        partitioned(before, swapped(now, j as int, hi as int), lo, hi, i, j),
{
    let after = swapped(now, j as int, hi as int);
    lemma_swapped_subrange(now, lo as int, hi + 1, j as int, hi as int);
    if total_order::<T>() {
        lemma_le_refl(before[hi as int]);
        assert forall|x: int| j < x <= hi implies lt(before[hi as int], #[trigger] after[x]) by {
            if x == hi {
                assert(after[x] == now[j as int]);
            } else {
                assert(after[x] == now[x]);
            }
        }
        assert forall|x: int| i <= x <= j implies equiv(#[trigger] after[x], before[hi as int]) by {
            if x < j {
                assert(after[x] == now[x]);
            }
        }
    }
}

/// A range whose first part is sorted and ordered before a pivot, whose
/// middle part is level with the pivot, and whose last part is sorted and
/// ordered after the pivot, is sorted.
proof fn lemma_zones_sorted<T: Ord>(s: Seq<T>, lo: int, hi: int, left: int, right: int, pivot: T)
    requires
        total_order::<T>(),
        0 <= lo <= left <= right <= hi < s.len(),
        sorted(s.subrange(lo, left)),
        sorted(s.subrange(right + 1, hi + 1)),
        forall|x: int| lo <= x < left ==> lt(#[trigger] s[x], pivot),
        forall|x: int| left <= x <= right ==> equiv(#[trigger] s[x], pivot),
        forall|x: int| right < x <= hi ==> lt(pivot, #[trigger] s[x]),
    ensures
        sorted(s.subrange(lo, hi + 1)),
{
    let range = s.subrange(lo, hi + 1);
    assert forall|x: int, y: int| 0 <= x < y < range.len() implies le(
        #[trigger] range[x],
        #[trigger] range[y],
    ) by {
        let p = lo + x;
        let q = lo + y;
        assert(range[x] == s[p] && range[y] == s[q]);
        lemma_trichotomy(s[p], pivot);
        lemma_trichotomy(s[q], pivot);
        lemma_trichotomy(pivot, s[q]);
        if q < left {
            assert(s.subrange(lo, left)[x] == s[p]);
            assert(s.subrange(lo, left)[y] == s[q]);
        } else if p > right {
            assert(s.subrange(right + 1, hi + 1)[p - right - 1] == s[p]);
            assert(s.subrange(right + 1, hi + 1)[q - right - 1] == s[q]);
        } else {
            // The pivot is between the two, or level with one of them.
            assert(le(s[p], pivot));
            assert(le(pivot, s[q]));
            lemma_le_trans(s[p], pivot, s[q]);
        }
    }
}

/// Sorts the whole slice in place, in non-decreasing order, and hands it
/// back.
pub fn sort<T: Ord>(a: &mut [T]) -> (sorted_slice: &mut [T])
    ensures
        sorted_slice@.len() == old(a)@.len(),
        sorted_slice@.to_multiset() == old(a)@.to_multiset(),
        total_order::<T>() ==> sorted(sorted_slice@),
        final(a)@ == final(sorted_slice)@,
{
    let size = a.len();

    if size <= 1 {
        return a;
    }

    quick_sort(a, 0, size - 1);
    proof {
        assert(a@.subrange(0, size as int) =~= a@);
        assert(old(a)@.subrange(0, size as int) =~= old(a)@);
    }
    a
}

/// Sorts the range `[lo, hi]` of the slice: brings a pivot to `hi`, divides
/// the range about it, and sorts the parts before and after the pivot's
/// zone. A range of fewer than two elements is left as it is.
fn quick_sort<T: Ord>(a: &mut [T], lo: usize, hi: usize)
    requires
        lo >= hi || hi < old(a)@.len(),
    ensures
        final(a)@.len() == old(a)@.len(),
        lo >= hi ==> final(a)@ == old(a)@,
        lo < hi ==> same_outside(old(a)@, final(a)@, lo as int, hi + 1),
        lo < hi ==> final(a)@.subrange(lo as int, hi + 1).to_multiset() == old(a)@.subrange(
            lo as int,
            hi + 1,
        ).to_multiset(),
        lo < hi && total_order::<T>() ==> sorted(final(a)@.subrange(lo as int, hi + 1)),
    decreases (if hi > lo { hi - lo } else { 0 }),
{
    // Ensure indices are in correct order.
    if lo >= hi {
        return;
    }

    // Choice of pivot.
    pivot(a, lo, hi);
    let ghost chosen = a@;

    // Partition array and get the pivot indices.
    let (left, right) = partition(a, lo, hi);
    let ghost divided = a@;
    let ghost middle = chosen[hi as int];

    // Sort the two partitions.
    if left > 1 {
        // Left side of pivot.
        quick_sort(a, lo, left - 1);
    }
    let ghost half = a@;
    proof {
        if left > 1 && lo < left - 1 {
            lemma_range_widen(divided, half, lo as int, left as int, lo as int, hi + 1);
            if total_order::<T>() {
                lemma_range_all(divided, half, lo as int, left as int, |v: T| lt(v, middle));
            }
        } else {
            assert(half == divided);
        }
        assert(same_outside(divided, half, lo as int, left as int));
        assert(right < a.len());
    }

    // Right side of pivot.
    quick_sort(a, right + 1, hi);
    proof {
        if right + 1 < hi {
            lemma_range_widen(half, a@, right + 1, hi + 1, lo as int, hi + 1);
            if total_order::<T>() {
                assert forall|x: int| right + 1 <= x < hi + 1 implies lt(
                    middle,
                    #[trigger] half[x],
                ) by {
                    assert(half[x] == divided[x]);
                }
                lemma_range_all(half, a@, right + 1, hi + 1, |v: T| lt(middle, v));
            }
        } else {
            assert(a@ == half);
        }
        assert(same_outside(half, a@, right + 1, hi + 1));
        if total_order::<T>() {
            assert forall|x: int| lo <= x < left implies lt(#[trigger] a@[x], middle) by {
                assert(a@[x] == half[x]);
            }
            assert forall|x: int| left <= x <= right implies equiv(#[trigger] a@[x], middle) by {
                assert(a@[x] == half[x]);
                assert(half[x] == divided[x]);
            }
            assert forall|x: int| right < x <= hi implies lt(middle, #[trigger] a@[x]) by {
                if !(right + 1 < hi) {
                    assert(a@[x] == divided[x]);
                }
            }
            assert(a@.subrange(lo as int, left as int) =~= half.subrange(lo as int, left as int));
            lemma_zones_sorted(a@, lo as int, hi as int, left as int, right as int, middle);
        }
    }
}

/// Median of three: brings the median of the elements at `lo`, at the middle
/// of the range and at `hi` to `hi`, where the division takes its pivot from.
fn pivot<T: Ord>(a: &mut [T], lo: usize, hi: usize)
    requires
        lo <= hi < old(a)@.len(),
    ensures
        final(a)@.len() == old(a)@.len(),
        same_outside(old(a)@, final(a)@, lo as int, hi + 1),
        final(a)@.subrange(lo as int, hi + 1).to_multiset() == old(a)@.subrange(
            lo as int,
            hi + 1,
        ).to_multiset(),
        total_order::<T>() ==> final(a)@ == pivoted(old(a)@, lo as int, hi as int),
{
    let mid = lo + (hi - lo) / 2;

    if a[mid] < a[lo] {
        proof {
            lemma_swapped_subrange(a@, lo as int, hi + 1, lo as int, mid as int);
        }
        a.swap(lo, mid);
    }

    if a[hi] < a[lo] {
        proof {
            lemma_swapped_subrange(a@, lo as int, hi + 1, lo as int, hi as int);
        }
        a.swap(lo, hi);
    }

    if a[mid] < a[hi] {
        proof {
            lemma_swapped_subrange(a@, lo as int, hi + 1, mid as int, hi as int);
        }
        a.swap(mid, hi);
    }
}

/// Divides `[lo, hi]` into three parts about the element at `hi`, and
/// returns the first and the last index of the part that is level with it.
fn partition<T: Ord>(a: &mut [T], lo: usize, hi: usize) -> (bounds: (usize, usize))
    requires
        lo <= hi,
        0 < hi,
        hi < old(a)@.len(),
    ensures
        partitioned(old(a)@, final(a)@, lo, hi, bounds.0, bounds.1),
{
    // The last element is the pivot.
    let p = hi;

    // Temporary pivot indices.
    let mut i = lo;
    let mut j = lo;

    let mut k = hi - 1;
    let ghost mut above = hi;

    // mid = a[p];
    // [lo, i) < mid;
    // [i, j) == mid;
    // [j, k] not yet sorted;
    // [k + 1, hi - 1] > mid;
    while j <= k
        invariant_except_break
            above == k + 1,
        invariant
            p == hi,
            partition_zones(old(a)@, a@, lo, hi, i, j, above),
        ensures
            j == above,
        decreases above - j,
    {
        proof {
            if total_order::<T>() {
                lemma_three_way(item_at(a@, j), item_at(a@, p));
            }
        }
        match a[j].cmp(&a[p]) {
            Ordering::Less => {
                proof {
                    lemma_zone_less(old(a)@, a@, lo, hi, i, j, above);
                }
                a.swap(i, j);
                i += 1;
                j += 1;
            },
            Ordering::Greater => {
                proof {
                    lemma_zone_greater(old(a)@, a@, lo, hi, i, j, above);
                    above = k;
                }
                a.swap(j, k);

                if k == 0 {
                    break;
                }
                k -= 1;
            },
            Ordering::Equal => {
                j += 1;
            },
        }
    }

    // Move the pivot element to the correct pivot position
    // (between the smaller and larger elements).
    proof {
        lemma_zone_done(old(a)@, a@, lo, hi, i, j);
    }
    a.swap(j, p);

    // The pivot indices.
    (i, j)
}

} // verus!
