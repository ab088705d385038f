//! What the restoring passes of the heap achieve, proved of the sequences
//! that [`super::model`] defines.

use super::model::{
    after_draws, after_steps, drained, draw_value, heap_from, heapified, is_heap, parent,
    peek_value, pop_value, popped, popped_times, popped_values, pops, pops_find_items, pushed,
    pushes, rebuild_from, sift_down, sift_down_target, sift_up, Step,
};
use crate::merge_sort::{lemma_merge_sorted_sorts, merge_sorted};
use crate::order::{
    gt, identity_order, le, lemma_le_refl, lemma_le_trans, lemma_sorted_unique,
    lemma_trichotomy, lt, sorted, total_order,
};
use crate::permutation::{
    lemma_cons_multiset, lemma_empty_multiset, lemma_swapped_multiset, swapped,
};
use vstd::prelude::*;

verus! {

/// Heap order holds as in [`heap_from`], except that the node at `pos` may
/// be ordered after its children. The children of `pos` are still not
/// ordered before the parent of `pos`, where that parent counts.
pub open spec fn heap_from_except_below<T: Ord>(s: Seq<T>, from: int, pos: int) -> bool {
    &&& forall|i: int|
        0 < i < s.len() && parent(i) >= from && parent(i) != pos ==> le(
            s[parent(i)],
            #[trigger] s[i],
        )
    &&& forall|i: int|
        0 < i < s.len() && parent(i) == pos && pos > 0 && parent(pos) >= from ==> le(
            s[parent(pos)],
            #[trigger] s[i],
        )
}

/// Heap order holds everywhere, except that the node at `pos` may be ordered
/// before its parent. The children of `pos` are still not ordered before the
/// parent of `pos`.
pub open spec fn heap_except_above<T: Ord>(s: Seq<T>, pos: int) -> bool {
    &&& forall|i: int| 0 < i < s.len() && i != pos ==> le(s[parent(i)], #[trigger] s[i])
    &&& forall|i: int|
        0 < i < s.len() && parent(i) == pos && pos > 0 ==> le(s[parent(pos)], #[trigger] s[i])
}

/// A sift-down moves elements about and neither adds nor drops any.
pub proof fn lemma_sift_down_permutes<T: Ord>(s: Seq<T>, pos: int)
    ensures
        sift_down(s, pos).len() == s.len(),
        sift_down(s, pos).to_multiset() == s.to_multiset(),
    decreases s.len() - pos,
{
    let target = sift_down_target(s, pos);
    if target != pos {
        lemma_swapped_multiset(s, pos, target);
        lemma_sift_down_permutes(swapped(s, pos, target), target);
    }
}

/// A sift-up moves elements about and neither adds nor drops any.
pub proof fn lemma_sift_up_permutes<T: Ord>(s: Seq<T>, pos: int)
    ensures
        sift_up(s, pos).len() == s.len(),
        sift_up(s, pos).to_multiset() == s.to_multiset(),
    decreases pos,
{
    if 0 < pos < s.len() && gt(s[parent(pos)], s[pos]) {
        lemma_swapped_multiset(s, pos, parent(pos));
        lemma_sift_up_permutes(swapped(s, pos, parent(pos)), parent(pos));
    }
}

/// Sifting down the one node that may be out of order restores heap order.
pub proof fn lemma_sift_down_restores<T: Ord>(s: Seq<T>, from: int, pos: int)
    requires
        total_order::<T>(),
        0 <= from <= pos,
        heap_from_except_below(s, from, pos),
    ensures
        heap_from(sift_down(s, pos), from),
    decreases s.len() - pos,
{
    let target = sift_down_target(s, pos);
    let left = 2 * pos + 1;
    let right = left + 1;
    if left < s.len() {
        lemma_trichotomy(s[left], s[pos]);
        if right < s.len() {
            lemma_trichotomy(s[right], s[pos]);
            lemma_trichotomy(s[right], s[left]);
        }
    }
    if target == pos {
        assert forall|i: int| 0 < i < s.len() && parent(i) >= from implies le(
            s[parent(i)],
            #[trigger] s[i],
        ) by {
            if parent(i) == pos {
                assert(i == left || i == right);
            }
        }
    } else {
        let t = swapped(s, pos, target);
        let sibling = if target == left {
            right
        } else {
            left
        };
        if target == right && lt(s[left], s[pos]) {
            lemma_le_trans(s[right], s[left], s[pos]);
        }
        assert(lt(s[target], s[pos]));
        if sibling < s.len() {
            // The element that moves up is not ordered after its sibling.
            if target == right && !lt(s[right], s[left]) {
                lemma_le_trans(s[right], s[pos], s[left]);
            }
            assert(le(s[target], s[sibling]));
        }
        assert forall|i: int|
            0 < i < t.len() && parent(i) >= from && parent(i) != target implies le(
            t[parent(i)],
            #[trigger] t[i],
        ) by {
            if i == target || i == sibling {
                assert(parent(i) == pos);
            } else if i == pos {
                assert(le(s[parent(pos)], s[target]));
            } else {
                assert(parent(i) != pos);
                assert(le(s[parent(i)], s[i]));
            }
        }
        assert forall|i: int|
            0 < i < t.len() && parent(i) == target && target > 0 && parent(target)
                >= from implies le(t[parent(target)], #[trigger] t[i]) by {
            assert(le(s[parent(i)], s[i]));
        }
        lemma_sift_down_restores(t, from, target);
    }
}

/// Sifting up the one node that may be out of order restores heap order.
pub proof fn lemma_sift_up_restores<T: Ord>(s: Seq<T>, pos: int)
    requires
        total_order::<T>(),
        0 <= pos,
        heap_except_above(s, pos),
    ensures
        is_heap(sift_up(s, pos)),
    decreases pos,
{
    if 0 < pos < s.len() {
        let up = parent(pos);
        lemma_trichotomy(s[up], s[pos]);
        if gt(s[up], s[pos]) {
            let t = swapped(s, pos, up);
            assert forall|i: int| 0 < i < t.len() && i != up implies le(
                t[parent(i)],
                #[trigger] t[i],
            ) by {
                if i == pos {
                } else if parent(i) == pos {
                    assert(le(s[parent(pos)], s[i]));
                } else if parent(i) == up {
                    assert(le(s[up], s[i]));
                    lemma_le_trans(s[pos], s[up], s[i]);
                } else {
                    assert(le(s[parent(i)], s[i]));
                }
            }
            assert forall|i: int| 0 < i < t.len() && parent(i) == up && up > 0 implies le(
                t[parent(up)],
                #[trigger] t[i],
            ) by {
                assert(le(s[parent(up)], s[up]));
                if i != pos {
                    assert(le(s[up], s[i]));
                    lemma_le_trans(s[parent(up)], s[up], s[i]);
                }
            }
            lemma_sift_up_restores(t, up);
        } else {
            assert forall|i: int| 0 < i < s.len() && parent(i) >= 0 implies le(
                s[parent(i)],
                #[trigger] s[i],
            ) by {}
        }
    } else {
        assert forall|i: int| 0 < i < s.len() && parent(i) >= 0 implies le(
            s[parent(i)],
            #[trigger] s[i],
        ) by {}
    }
}

/// The bottom-up pass moves elements about and neither adds nor drops any.
pub proof fn lemma_rebuild_from_permutes<T: Ord>(s: Seq<T>, index: int)
    ensures
        rebuild_from(s, index).len() == s.len(),
        rebuild_from(s, index).to_multiset() == s.to_multiset(),
    decreases index,
{
    if index > 0 {
        lemma_sift_down_permutes(s, index - 1);
        lemma_rebuild_from_permutes(sift_down(s, index - 1), index - 1);
    }
}

/// Sifting down the nodes below `index`, the last one first, extends heap
/// order from the nodes at `index` and later to the whole tree.
pub proof fn lemma_rebuild_from_restores<T: Ord>(s: Seq<T>, index: int)
    requires
        total_order::<T>(),
        0 <= index,
        heap_from(s, index),
    ensures
        is_heap(rebuild_from(s, index)),
    decreases index,
{
    if index > 0 {
        lemma_sift_down_restores(s, index - 1, index - 1);
        lemma_rebuild_from_restores(sift_down(s, index - 1), index - 1);
    }
}

/// A heap built in one pass holds the elements it was built from, each as
/// often as it was given.
pub proof fn lemma_heapified_permutes<T: Ord>(s: Seq<T>)
    ensures
        heapified(s).len() == s.len(),
        heapified(s).to_multiset() == s.to_multiset(),
{
    lemma_rebuild_from_permutes(s, (s.len() / 2) as int);
}

/// The bottom-up pass puts any sequence in heap order.
pub proof fn lemma_heapified_is_heap<T: Ord>(s: Seq<T>)
    requires
        total_order::<T>(),
    ensures
        is_heap(heapified(s)),
{
    lemma_rebuild_from_restores(s, (s.len() / 2) as int);
}

/// After a push the heap holds one element more: the old ones and the new
/// one.
pub proof fn lemma_pushed_permutes<T: Ord>(s: Seq<T>, item: T)
    ensures
        pushed(s, item).len() == s.len() + 1,
        pushed(s, item).to_multiset() == s.to_multiset().insert(item),
{
    lemma_sift_up_permutes(s.push(item), s.len() as int);
    s.to_multiset_ensures();
}

/// A push onto a heap leaves a heap.
pub proof fn lemma_pushed_is_heap<T: Ord>(s: Seq<T>, item: T)
    requires
        total_order::<T>(),
        is_heap(s),
    ensures
        is_heap(pushed(s, item)),
{
    let t = s.push(item);
    assert forall|i: int| 0 < i < t.len() && i != s.len() implies le(
        t[parent(i)],
        #[trigger] t[i],
    ) by {
        assert(le(s[parent(i)], s[i]));
    }
    lemma_sift_up_restores(t, s.len() as int);
}

/// After a pop the heap holds one element less: the old ones but for one
/// occurrence of the value handed out. A pop from an empty heap hands out
/// nothing and leaves the heap empty.
pub proof fn lemma_popped_permutes<T: Ord>(s: Seq<T>)
    ensures
        s.len() == 0 ==> popped(s) == s && pop_value(s) is None,
        s.len() > 0 ==> popped(s).len() == s.len() - 1,
        s.len() > 0 ==> pop_value(s) == Some(s[0]),
        s.len() > 0 ==> popped(s).to_multiset() == s.to_multiset().remove(s[0]),
{
    if s.len() >= 2 {
        let last = s.len() - 1;
        let moved = swapped(s, 0, last);
        lemma_sift_down_permutes(moved.drop_last(), 0);
        lemma_swapped_multiset(s, 0, last);
        moved.to_multiset_ensures();
        assert(moved.remove(last) =~= moved.drop_last());
    } else if s.len() == 1 {
        s.to_multiset_ensures();
        assert(s.remove(0) =~= popped(s));
    } else {
        assert(popped(s) =~= s);
    }
}

/// A pop from a heap leaves a heap.
pub proof fn lemma_popped_is_heap<T: Ord>(s: Seq<T>)
    requires
        total_order::<T>(),
        is_heap(s),
    ensures
        is_heap(popped(s)),
{
    if s.len() >= 2 {
        let t = swapped(s, 0, s.len() - 1).drop_last();
        assert forall|i: int| 0 < i < t.len() && parent(i) >= 0 && parent(i) != 0 implies le(
            t[parent(i)],
            #[trigger] t[i],
        ) by {
            assert(le(s[parent(i)], s[i]));
        }
        lemma_sift_down_restores(t, 0, 0);
    }
}

/// In a heap no element is ordered before the root.
pub proof fn lemma_root_is_least<T: Ord>(s: Seq<T>, i: int)
    requires
        total_order::<T>(),
        is_heap(s),
        0 <= i < s.len(),
    ensures
        le(s[0], s[i]),
    decreases i,
{
    if i == 0 {
        lemma_le_refl(s[0]);
    } else {
        lemma_root_is_least(s, parent(i));
        assert(le(s[parent(i)], s[i]));
        lemma_le_trans(s[0], s[parent(i)], s[i]);
    }
}

/// Heap order, read from the parent's side: a node is ordered before neither
/// of its children, and a sequence in which that holds of every node is a heap.
pub proof fn lemma_heap_order_by_children<T: Ord>(s: Seq<T>)
    ensures
        is_heap(s) <==> forall|i: int|
            #![trigger s[i]]
            0 <= i < s.len() ==> {
                &&& 2 * i + 1 < s.len() ==> le(s[i], s[2 * i + 1])
                &&& 2 * i + 2 < s.len() ==> le(s[i], s[2 * i + 2])
            },
{
    if is_heap(s) {
        assert forall|i: int| #![trigger s[i]] 0 <= i < s.len() implies {
            &&& 2 * i + 1 < s.len() ==> le(s[i], s[2 * i + 1])
            &&& 2 * i + 2 < s.len() ==> le(s[i], s[2 * i + 2])
        } by {
            if 2 * i + 1 < s.len() {
                assert(parent(2 * i + 1) == i);
                assert(le(s[parent(2 * i + 1)], s[2 * i + 1]));
            }
            if 2 * i + 2 < s.len() {
                assert(parent(2 * i + 2) == i);
                assert(le(s[parent(2 * i + 2)], s[2 * i + 2]));
            }
        }
    }
    if forall|i: int|
        #![trigger s[i]]
        0 <= i < s.len() ==> {
            &&& 2 * i + 1 < s.len() ==> le(s[i], s[2 * i + 1])
            &&& 2 * i + 2 < s.len() ==> le(s[i], s[2 * i + 2])
        } {
        assert forall|i: int| 0 < i < s.len() && parent(i) >= 0 implies le(
            s[parent(i)],
            #[trigger] s[i],
        ) by {
            let up = parent(i);
            assert(0 <= up < s.len());
            assert(i == 2 * up + 1 || i == 2 * up + 2);
            assert(2 * up + 1 < s.len() ==> le(s[up], s[2 * up + 1]));
        }
    }
}

/// A peek shows the value that the next pop hands out.
pub proof fn lemma_peek_shows_next_pop<T>(s: Seq<T>)
    ensures
        peek_value(s) == pop_value(s),
        s.len() == 0 <==> peek_value(s) is None,
{
}

/// On a heap, the value that a peek shows and the next pop hands out is one
/// that no element of the heap is ordered before.
pub proof fn lemma_pop_value_is_least<T: Ord>(s: Seq<T>, i: int)
    requires
        total_order::<T>(),
        is_heap(s),
        0 <= i < s.len(),
    ensures
        pop_value(s) is Some,
        le(pop_value(s).unwrap(), s[i]),
{
    lemma_root_is_least(s, i);
}

/// An empty heap stays empty: however often a pop is made on it, it hands
/// out nothing and changes nothing, and a peek shows nothing.
pub proof fn lemma_empty_stays_empty<T: Ord>(n: nat)
    ensures
        popped_times(Seq::<T>::empty(), n) == Seq::<T>::empty(),
        pop_value(popped_times(Seq::<T>::empty(), n)) is None,
        peek_value(popped_times(Seq::<T>::empty(), n)) is None,
        popped_values(Seq::<T>::empty(), n) == Seq::<T>::empty(),
    decreases n,
{
    if n > 0 {
        let empty = Seq::<T>::empty();
        assert(popped(empty) =~= empty);
        lemma_empty_stays_empty::<T>((n - 1) as nat);
    }
}

/// The size law: after any calls of push and pop, none of the pops on an
/// empty heap, the heap holds as many elements more than before as there
/// were pushes, less the number of pops.
pub proof fn lemma_size_after_steps<T: Ord>(s: Seq<T>, steps: Seq<Step<T>>)
    requires
        pops_find_items(s, steps),
    ensures
        after_steps(s, steps).len() == s.len() + pushes(steps) - pops(steps),
    decreases steps.len(),
{
    if steps.len() > 0 {
        let before = after_steps(s, steps.drop_last());
        lemma_size_after_steps(s, steps.drop_last());
        match steps.last() {
            Step::Push(item) => lemma_pushed_permutes(before, item),
            Step::Pop => lemma_popped_permutes(before),
        }
    }
}

/// The heap-order invariant: whatever calls of push and pop are made on a
/// heap, what they leave is a heap.
pub proof fn lemma_heap_after_steps<T: Ord>(s: Seq<T>, steps: Seq<Step<T>>)
    requires
        total_order::<T>(),
        is_heap(s),
    ensures
        is_heap(after_steps(s, steps)),
    decreases steps.len(),
{
    if steps.len() > 0 {
        let before = after_steps(s, steps.drop_last());
        lemma_heap_after_steps(s, steps.drop_last());
        match steps.last() {
            Step::Push(item) => lemma_pushed_is_heap(before, item),
            Step::Pop => lemma_popped_is_heap(before),
        }
    }
}

/// The heap-order invariant for a heap built in one pass: whatever calls of
/// push and pop follow the construction, no node is ordered after either of
/// its children.
pub proof fn lemma_heap_order_invariant<T: Ord>(given: Seq<T>, steps: Seq<Step<T>>)
    requires
        total_order::<T>(),
    ensures
        ({
            let s = after_steps(heapified(given), steps);
            forall|i: int|
                #![trigger s[i]]
                0 <= i < s.len() ==> {
                    &&& 2 * i + 1 < s.len() ==> le(s[i], s[2 * i + 1])
                    &&& 2 * i + 2 < s.len() ==> le(s[i], s[2 * i + 2])
                }
        }),
{
    lemma_heapified_is_heap(given);
    lemma_heap_after_steps(heapified(given), steps);
    lemma_heap_order_by_children(after_steps(heapified(given), steps));
}

/// Draws from an iterator take what is still to come from the front, one
/// element each, until nothing is left; after that they change nothing.
pub proof fn lemma_after_draws<T>(s: Seq<T>, k: nat)
    ensures
        k <= s.len() ==> after_draws(s, k) == s.skip(k as int),
        k <= s.len() ==> after_draws(s, k).len() == s.len() - k,
        k >= s.len() ==> after_draws(s, k).len() == 0,
        k >= s.len() ==> draw_value(after_draws(s, k)) is None,
        k < s.len() ==> draw_value(after_draws(s, k)) == Some(s[k as int]),
    decreases k,
{
    if k == 0 {
        assert(s.skip(0) =~= s);
    } else {
        let m = (k - 1) as nat;
        lemma_after_draws(s, m);
        if k <= s.len() {
            assert(s.skip(m as int).drop_first() =~= s.skip(k as int));
        }
    }
}

/// Consuming iteration is exact: of a heap built in one pass from `n`
/// elements, `n - k` are still to come after `k` draws, the `n`-th draw
/// leaves nothing, and every later draw hands out nothing.
pub proof fn lemma_draws_from_heapified<T: Ord>(given: Seq<T>, k: nat)
    ensures
        k <= given.len() ==> after_draws(heapified(given), k).len() == given.len() - k,
        k >= given.len() ==> after_draws(heapified(given), k).len() == 0,
        k >= given.len() ==> draw_value(after_draws(heapified(given), k)) is None,
{
    lemma_heapified_permutes(given);
    lemma_after_draws(heapified(given), k);
}

/// Popping `n` times off a heap that holds at least `n` elements hands out
/// `n` values in non-decreasing order and leaves a heap. The values handed
/// out and the ones left are together the elements that the heap held, and
/// none of those left is ordered before any of those handed out.
pub proof fn lemma_popped_values_sorted<T: Ord>(s: Seq<T>, n: nat)
    requires
        total_order::<T>(),
        is_heap(s),
        n <= s.len(),
    ensures
        sorted(popped_values(s, n)),
        popped_values(s, n).len() == n,
        is_heap(popped_times(s, n)),
        popped_times(s, n).len() == s.len() - n,
        popped_values(s, n).to_multiset().add(popped_times(s, n).to_multiset())
            == s.to_multiset(),
        forall|j: int| 0 <= j < n ==> le(s[0], #[trigger] popped_values(s, n)[j]),
    decreases n,
{
    broadcast use vstd::multiset::group_multiset_axioms;

    let out = popped_values(s, n);
    if n == 0 {
        lemma_empty_multiset(out);
        assert(out.to_multiset().add(s.to_multiset()) =~= s.to_multiset());
    } else {
        let t = popped(s);
        let m = (n - 1) as nat;
        let rest = popped_values(t, m);
        lemma_popped_is_heap(s);
        lemma_popped_permutes(s);
        lemma_popped_values_sorted(t, m);
        assert(out =~= seq![s[0]] + rest);
        // Everything that comes out later is an element of `s`, and so is
        // not ordered before its root.
        assert forall|j: int| 0 <= j < n implies le(s[0], #[trigger] out[j]) by {
            if j == 0 {
                lemma_le_refl(s[0]);
            } else {
                let x = rest[j - 1];
                rest.to_multiset_ensures();
                s.to_multiset_ensures();
                assert(rest.contains(x));
                assert(rest.to_multiset().count(x) > 0);
                assert(t.to_multiset().count(x) > 0);
                assert(s.to_multiset().count(x) > 0);
                assert(s.contains(x));
                let k = choose|k: int| 0 <= k < s.len() && s[k] == x;
                lemma_root_is_least(s, k);
            }
        }
        assert forall|i: int, j: int| 0 <= i < j < out.len() implies le(
            #[trigger] out[i],
            #[trigger] out[j],
        ) by {
            if i > 0 {
                assert(le(rest[i - 1], rest[j - 1]));
            }
        }
        lemma_cons_multiset(s[0], rest);
        s.to_multiset_ensures();
        assert(s.contains(s[0]));
        assert(s.to_multiset().count(s[0]) > 0);
        let left = popped_times(s, n);
        assert(left == popped_times(t, m));
        assert forall|v: T|
            #[trigger] out.to_multiset().add(left.to_multiset()).count(v) == s.to_multiset().count(
                v,
            ) by {
            assert(t.to_multiset().count(v) == rest.to_multiset().add(left.to_multiset()).count(v));
            assert(t.to_multiset().count(v) == s.to_multiset().remove(s[0]).count(v));
        }
        assert(out.to_multiset().add(left.to_multiset()) =~= s.to_multiset());
    }
}

/// Popping a heap until it is empty hands out its elements in non-decreasing
/// order.
pub proof fn lemma_drained_sorted<T: Ord>(s: Seq<T>)
    requires
        total_order::<T>(),
        is_heap(s),
    ensures
        sorted(drained(s)),
        drained(s).len() == s.len(),
        drained(s).to_multiset() == s.to_multiset(),
        popped_times(s, s.len()).len() == 0,
{
    broadcast use vstd::multiset::group_multiset_axioms;

    lemma_popped_values_sorted(s, s.len());
    let left = popped_times(s, s.len());
    lemma_empty_multiset(left);
    assert(drained(s).to_multiset().add(left.to_multiset()) =~= drained(s).to_multiset());
}

/// Building a heap from a sequence in one pass and popping it until it is
/// empty sorts the sequence.
pub proof fn lemma_heapify_drain_sorts<T: Ord>(s: Seq<T>)
    requires
        total_order::<T>(),
    ensures
        sorted(drained(heapified(s))),
        drained(heapified(s)).len() == s.len(),
        drained(heapified(s)).to_multiset() == s.to_multiset(),
{
    lemma_heapified_is_heap(s);
    lemma_heapified_permutes(s);
    lemma_drained_sorted(heapified(s));
}

/// Where level values are one and the same, building a heap from a sequence
/// and popping it until it is empty gives what any routine gives that puts
/// the sequence in non-decreasing order.
pub proof fn lemma_heapify_drain_is_the_sort<T: Ord>(s: Seq<T>, by_sort: Seq<T>)
    requires
        total_order::<T>(),
        identity_order::<T>(),
        sorted(by_sort),
        by_sort.to_multiset() == s.to_multiset(),
    ensures
        drained(heapified(s)) == by_sort,
{
    lemma_heapify_drain_sorts(s);
    lemma_sorted_unique(drained(heapified(s)), by_sort);
}

/// The round trip against merge sort: where level values are one and the
/// same, building a heap from a sequence and popping it until it is empty
/// gives the sequence that merge sort makes of it.
pub proof fn lemma_heapify_drain_is_merge_sort<T: Ord>(s: Seq<T>)
    requires
        total_order::<T>(),
        identity_order::<T>(),
    ensures
        drained(heapified(s)) == merge_sorted(s),
{
    lemma_merge_sorted_sorts(s);
    lemma_heapify_drain_is_the_sort(s, merge_sorted(s));
}

} // verus!
