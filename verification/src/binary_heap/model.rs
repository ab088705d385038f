//! The heap as mathematics: a sequence read as a complete binary tree, the
//! heap-order property, and what each restoring pass computes.
//!
//! The node at index `i` has its parent at `(i - 1) / 2` and its children at
//! `2 * i + 1` and `2 * i + 2`.

use crate::order::{gt, le, lt};
use crate::permutation::swapped;
use vstd::prelude::*;

verus! {

/// The index of the parent of the node at index `i > 0`.
pub open spec fn parent(i: int) -> int {
    (i - 1) / 2
}

/// Heap order holds between every node whose parent sits at index `from` or
/// later and that parent.
pub open spec fn heap_from<T: Ord>(s: Seq<T>, from: int) -> bool {
    forall|i: int| 0 < i < s.len() && parent(i) >= from ==> le(s[parent(i)], #[trigger] s[i])
}

/// The heap-order property: no node is ordered before its parent.
pub open spec fn is_heap<T: Ord>(s: Seq<T>) -> bool {
    heap_from(s, 0)
}

/// Moves the element at `pos` towards the root for as long as its parent is
/// ordered strictly after it.
pub open spec fn sift_up<T: Ord>(s: Seq<T>, pos: int) -> Seq<T>
    decreases pos,
{
    if 0 < pos < s.len() && gt(s[parent(pos)], s[pos]) {
        sift_up(swapped(s, pos, parent(pos)), parent(pos))
    } else {
        s
    }
}

/// The index that the element at `pos` moves to in one step of a sift-down,
/// or `pos` itself where it stays.
///
/// The left child is looked at first. Where it is ordered strictly before
/// the element, the right child is taken instead only if it is ordered
/// strictly before the left one. Where it is not, the right child is taken
/// if it is ordered strictly before the element.
pub open spec fn sift_down_target<T: Ord>(s: Seq<T>, pos: int) -> int {
    let left = 2 * pos + 1;
    let right = left + 1;
    if 0 <= pos && left < s.len() {
        if lt(s[left], s[pos]) {
            if right < s.len() && lt(s[right], s[left]) {
                right
            } else {
                left
            }
        } else if right < s.len() && lt(s[right], s[pos]) {
            right
        } else {
            pos
        }
    } else {
        pos
    }
}

/// Moves the element at `pos` towards the leaves, one
/// [`sift_down_target`] at a time, until it stays.
pub open spec fn sift_down<T: Ord>(s: Seq<T>, pos: int) -> Seq<T>
    decreases s.len() - pos,
{
    let target = sift_down_target(s, pos);
    if target != pos {
        sift_down(swapped(s, pos, target), target)
    } else {
        s
    }
}

/// Sifts down the nodes at `index - 1`, `index - 2`, ..., `0`, in that order.
pub open spec fn rebuild_from<T: Ord>(s: Seq<T>, index: int) -> Seq<T>
    decreases index,
{
    if index <= 0 {
        s
    } else {
        rebuild_from(sift_down(s, index - 1), index - 1)
    }
}

/// The storage of a heap built in one bottom-up pass from `s`: every node
/// that has a child is sifted down, the last such node first.
pub open spec fn heapified<T: Ord>(s: Seq<T>) -> Seq<T> {
    rebuild_from(s, (s.len() / 2) as int)
}

/// The storage after `item` is pushed onto a heap with storage `s`.
pub open spec fn pushed<T: Ord>(s: Seq<T>, item: T) -> Seq<T> {
    sift_up(s.push(item), s.len() as int)
}

/// What a pop hands out of a heap with storage `s`.
pub open spec fn pop_value<T>(s: Seq<T>) -> Option<T> {
    if s.len() == 0 {
        None
    } else {
        Some(swapped(s, 0, s.len() - 1).last())
    }
}

/// The storage after a pop from a heap with storage `s`.
pub open spec fn popped<T: Ord>(s: Seq<T>) -> Seq<T> {
    if s.len() < 2 {
        Seq::empty()
    } else {
        sift_down(swapped(s, 0, s.len() - 1).drop_last(), 0)
    }
}

/// What a peek shows of a heap with storage `s`.
pub open spec fn peek_value<T>(s: Seq<T>) -> Option<T> {
    if s.len() == 0 {
        None
    } else {
        Some(s[0])
    }
}

/// The storage after `n` pops from a heap with storage `s`.
pub open spec fn popped_times<T: Ord>(s: Seq<T>, n: nat) -> Seq<T>
    decreases n,
{
    if n == 0 {
        s
    } else {
        popped_times(popped(s), (n - 1) as nat)
    }
}

/// The first `n` values popped off a heap with storage `s`, in the order in
/// which they come out. Pops from an empty heap hand out nothing.
pub open spec fn popped_values<T: Ord>(s: Seq<T>, n: nat) -> Seq<T>
    decreases n,
{
    if n == 0 || s.len() == 0 {
        Seq::empty()
    } else {
        seq![pop_value(s).unwrap()] + popped_values(popped(s), (n - 1) as nat)
    }
}

/// All the values of a heap with storage `s`, in the order in which popping
/// until the heap is empty hands them out.
pub open spec fn drained<T: Ord>(s: Seq<T>) -> Seq<T> {
    popped_values(s, s.len())
}

/// One call that changes a heap.
pub enum Step<T> {
    /// A push of the given item.
    Push(T),
    /// A pop.
    Pop,
}

/// The storage after the calls `steps` have been made, the first one first,
/// on a heap with storage `s`.
pub open spec fn after_steps<T: Ord>(s: Seq<T>, steps: Seq<Step<T>>) -> Seq<T>
    decreases steps.len(),
{
    if steps.len() == 0 {
        s
    } else {
        let before = after_steps(s, steps.drop_last());
        match steps.last() {
            Step::Push(item) => pushed(before, item),
            Step::Pop => popped(before),
        }
    }
}

/// The number of pushes among `steps`.
pub open spec fn pushes<T>(steps: Seq<Step<T>>) -> nat
    decreases steps.len(),
{
    if steps.len() == 0 {
        0
    } else if steps.last() is Push {
        pushes(steps.drop_last()) + 1
    } else {
        pushes(steps.drop_last())
    }
}

/// The number of pops among `steps`.
pub open spec fn pops<T>(steps: Seq<Step<T>>) -> nat
    decreases steps.len(),
{
    if steps.len() == 0 {
        0
    } else if steps.last() is Pop {
        pops(steps.drop_last()) + 1
    } else {
        pops(steps.drop_last())
    }
}

/// None of the pops among `steps`, made on a heap with storage `s`, finds
/// the heap empty.
pub open spec fn pops_find_items<T: Ord>(s: Seq<T>, steps: Seq<Step<T>>) -> bool
    decreases steps.len(),
{
    if steps.len() == 0 {
        true
    } else {
        &&& pops_find_items(s, steps.drop_last())
        &&& steps.last() is Pop ==> after_steps(s, steps.drop_last()).len() > 0
    }
}

/// What the next draw from an iterator hands out that has `s` still to
/// come.
pub open spec fn draw_value<T>(s: Seq<T>) -> Option<T> {
    if s.len() == 0 {
        None
    } else {
        Some(s[0])
    }
}

/// What is still to come after one draw from an iterator that has `s` still
/// to come.
pub open spec fn after_draw<T>(s: Seq<T>) -> Seq<T> {
    if s.len() == 0 {
        s
    } else {
        s.drop_first()
    }
}

/// What is still to come after `k` draws from an iterator that has `s` still
/// to come.
pub open spec fn after_draws<T>(s: Seq<T>, k: nat) -> Seq<T>
    decreases k,
{
    if k == 0 {
        s
    } else {
        after_draw(after_draws(s, (k - 1) as nat))
    }
}

} // verus!
