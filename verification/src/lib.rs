//! Verified data structures and sorting routines.
//!
//! * [`binary_heap`]: a priority queue on a binary min-heap, with the heap
//!   as a sequence in [`binary_heap::model`] and what holds of it in
//!   [`binary_heap::laws`].
//! * [`merge_sort`] and [`quick_sort`]: two in-place sorts of a slice.
//! * [`stack`]: a stack on a singly linked list.
//! * [`order`]: the total order on elements that all of these rely on.
//! * [`permutation`]: sequences that hold the same elements in another order.
//! * [`slice_specs`]: what is assumed of the standard library.
//!
//! Every contract that speaks of order is conditional on
//! [`order::total_order`]. It holds of the integer types, by
//! `vstd::laws_cmp::group_laws_cmp` and [`order::lemma_total_order_from_laws`].

pub mod binary_heap;
pub mod merge_sort;
pub mod order;
pub mod permutation;
pub mod quick_sort;
pub mod slice_specs;
pub mod stack;
