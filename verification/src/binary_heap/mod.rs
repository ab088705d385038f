//! A priority queue on a binary min-heap.
//!
//! The heap keeps its elements in a `Vec` that is read as a complete binary
//! tree. The least element sits at the root, index 0.

pub mod laws;
pub mod model;

use crate::order::{le, total_order};
use crate::permutation::{lemma_swapped_multiset, swapped};
use laws::{
    lemma_heapified_is_heap, lemma_popped_is_heap, lemma_pushed_is_heap, lemma_root_is_least,
};
use model::{
    after_draw, draw_value, heapified, is_heap, peek_value, pop_value, popped, pushed,
    rebuild_from, sift_down, sift_up,
};
use vstd::prelude::*;

verus! {

/// A priority queue implemented with a binary heap. The least element is the
/// one that comes out first.
#[derive(Debug)]
pub struct BinaryHeap<T> {
    data: Vec<T>,
}

impl<T> View for BinaryHeap<T> {
    type V = Seq<T>;

    /// The elements in storage order: the tree, level by level.
    closed spec fn view(&self) -> Seq<T> {
        self.data@
    }
}

impl<T: Ord> BinaryHeap<T> {
    /// The storage is in heap order.
    pub open spec fn well_formed(&self) -> bool {
        is_heap(self@)
    }

    /// Creates an empty heap.
    pub fn new() -> (heap: Self)
        ensures
            heap@ == Seq::<T>::empty(),
            heap.well_formed(),
    {
        BinaryHeap { data: vec![] }
    }

    /// Pushes an item onto the heap.
    pub fn push(&mut self, item: T)
        ensures
            final(self)@.len() == old(self)@.len() + 1,
            final(self)@.to_multiset() == old(self)@.to_multiset().insert(item),
            total_order::<T>() ==> final(self)@ == pushed(old(self)@, item),
            total_order::<T>() && old(self).well_formed() ==> final(self).well_formed(),
    {
        let items = &mut self.data;
        let index = items.len();
        items.push(item);
        proof {
            old(self)@.to_multiset_ensures();
            if total_order::<T>() && old(self).well_formed() {
                lemma_pushed_is_heap(old(self)@, item);
            }
        }
        self.sift_up(index);
    }

    /// Returns the least item in the heap, or `None` if it is empty.
    pub fn peek(&self) -> (item: Option<&T>)
        ensures
            match item {
                Some(least) => peek_value(self@) == Some(*least),
                None => peek_value(self@) is None,
            },
            total_order::<T>() && self.well_formed() ==> forall|i: int|
                0 <= i < self@.len() ==> le(*item.unwrap(), #[trigger] self@[i]),
    {
        proof {
            if total_order::<T>() && self.well_formed() {
                assert forall|i: int| 0 <= i < self@.len() implies le(
                    self@[0],
                    #[trigger] self@[i],
                ) by {
                    lemma_root_is_least(self@, i);
                }
            }
        }
        self.data.get(0)
    }

    /// Removes the least item from the heap and returns it, or `None` if it
    /// is empty.
    pub fn pop(&mut self) -> (item: Option<T>)
        ensures
            item == pop_value(old(self)@),
            old(self)@.len() == 0 ==> final(self)@ == old(self)@,
            old(self)@.len() > 0 ==> final(self)@.len() == old(self)@.len() - 1,
            old(self)@.len() > 0 ==> final(self)@.to_multiset() == old(self)@.to_multiset().remove(
                old(self)@[0],
            ),
            total_order::<T>() ==> final(self)@ == popped(old(self)@),
            total_order::<T>() && old(self).well_formed() ==> final(self).well_formed(),
            total_order::<T>() && old(self).well_formed() ==> forall|i: int|
                0 <= i < old(self)@.len() ==> le(item.unwrap(), #[trigger] old(self)@[i]),
    {
        proof {
            if total_order::<T>() && old(self).well_formed() {
                lemma_popped_is_heap(old(self)@);
                assert forall|i: int| 0 <= i < old(self)@.len() implies le(
                    old(self)@[0],
                    #[trigger] old(self)@[i],
                ) by {
                    lemma_root_is_least(old(self)@, i);
                }
            }
        }
        let items = &mut self.data;
        let size = items.len();

        if size < 2 {
            proof {
                if size == 1 {
                    old(self)@.to_multiset_ensures();
                    assert(old(self)@.remove(0) =~= old(self)@.drop_last());
                }
            }
            return items.pop();
        }

        items.swap(0, size - 1);
        let item = items.pop();
        proof {
            let moved = swapped(old(self)@, 0, size - 1);
            lemma_swapped_multiset(old(self)@, 0, size - 1);
            moved.to_multiset_ensures();
            assert(moved.remove(size - 1) =~= moved.drop_last());
        }
        self.sift_down(0);
        item
    }

    /// Returns the number of elements in the heap.
    pub fn len(&self) -> (n: usize)
        ensures
            n == self@.len(),
    {
        self.data.len()
    }

    /// Checks if the heap is empty.
    pub fn is_empty(&self) -> (empty: bool)
        ensures
            empty <==> self@.len() == 0,
    {
        self.len() == 0
    }

    /// Takes the element at `pos` and moves it up the heap while its parent is
    /// ordered strictly after it.
    fn sift_up(&mut self, pos: usize)
        requires
            pos == 0 || pos < old(self)@.len(),
        ensures
            final(self)@.len() == old(self)@.len(),
            final(self)@.to_multiset() == old(self)@.to_multiset(),
            total_order::<T>() ==> final(self)@ == sift_up(old(self)@, pos as int),
    {
        let mut index = pos;
        let items = &mut self.data;

        while index > 0
            invariant
                after_borrow(self).data == *final(items),
                index == 0 || index < items@.len(),
                items@.len() == old(self)@.len(),
                items@.to_multiset() == old(self)@.to_multiset(),
                total_order::<T>() ==> sift_up(items@, index as int) == sift_up(
                    old(self)@,
                    pos as int,
                ),
            decreases index,
        {
            let parent_index = (index - 1) / 2;
            let ghost before = items@;

            if items[parent_index] > items[index] {
                // The parent is larger. Swap positions.
                items.swap(index, parent_index);
                proof {
                    lemma_swapped_multiset(before, index as int, parent_index as int);
                }
                index = parent_index;
            } else {
                // The parent is smaller. Exit.
                return;
            }
        }
    }

    /// Takes the element at `pos` and moves it down the heap while one of its
    /// children is ordered strictly before it.
    fn sift_down(&mut self, pos: usize)
        ensures
            final(self)@.len() == old(self)@.len(),
            final(self)@.to_multiset() == old(self)@.to_multiset(),
            total_order::<T>() ==> final(self)@ == sift_down(old(self)@, pos as int),
    {
        let mut index = pos;
        let items = &mut self.data;
        let size = items.len();
        let half_size = size / 2;

        while index < half_size
            invariant
                after_borrow(self).data == *final(items),
                size == items@.len(),
                half_size == size / 2,
                items@.len() == old(self)@.len(),
                items@.to_multiset() == old(self)@.to_multiset(),
                total_order::<T>() ==> sift_down(items@, index as int) == sift_down(
                    old(self)@,
                    pos as int,
                ),
            decreases size - index,
        {
            let left_index = index * 2 + 1;
            let right_index = left_index + 1;
            let ghost before = items@;

            // If the left or right node is smaller, swap with the smaller of those.
            if items[left_index] < items[index] {
                if right_index < size && items[right_index] < items[left_index] {
                    items.swap(index, right_index);
                    proof {
                        lemma_swapped_multiset(before, index as int, right_index as int);
                    }
                    index = right_index;
                } else {
                    items.swap(index, left_index);
                    proof {
                        lemma_swapped_multiset(before, index as int, left_index as int);
                    }
                    index = left_index;
                }
            } else if right_index < size && items[right_index] < items[index] {
                items.swap(index, right_index);
                proof {
                    lemma_swapped_multiset(before, index as int, right_index as int);
                }
                index = right_index;
            } else {
                // Neither child is smaller. Exit.
                return;
            }
        }
    }

    /// Restores heap order over the whole storage, bottom up.
    fn rebuild(&mut self)
        ensures
            final(self)@.len() == old(self)@.len(),
            final(self)@.to_multiset() == old(self)@.to_multiset(),
            total_order::<T>() ==> final(self)@ == heapified(old(self)@),
    {
        let mut index = self.len() / 2;

        while index > 0
            invariant
                self@.len() == old(self)@.len(),
                self@.to_multiset() == old(self)@.to_multiset(),
                total_order::<T>() ==> rebuild_from(self@, index as int) == heapified(old(self)@),
            decreases index,
        {
            index -= 1;
            self.sift_down(index);
        }
    }
}

impl<T: Ord> Default for BinaryHeap<T> {
    /// Creates an empty heap.
    fn default() -> (heap: Self)
        ensures
            heap@ == Seq::<T>::empty(),
            heap.well_formed(),
    {
        BinaryHeap::new()
    }
}

impl<T: Ord> vstd::std_specs::convert::FromSpecImpl<Vec<T>> for BinaryHeap<T> {
    /// The conversion is not described by [`Self::from_spec`]: where the
    /// order is not total nothing fixes the storage of the heap, only its
    /// elements. What `from` returns is stated on `from` itself.
    open spec fn obeys_from_spec() -> bool {
        false
    }

    /// Left open, see [`Self::obeys_from_spec`].
    open spec fn from_spec(vec: Vec<T>) -> Self {
        arbitrary()
    }
}

impl<T: Ord> From<Vec<T>> for BinaryHeap<T> {
    /// Converts a `Vec` into a heap, in place and in one bottom-up pass.
    fn from(vec: Vec<T>) -> (heap: Self)
        ensures
            heap@.len() == vec@.len(),
            heap@.to_multiset() == vec@.to_multiset(),
            total_order::<T>() ==> heap@ == heapified(vec@),
            total_order::<T>() ==> heap.well_formed(),
    {
        proof {
            if total_order::<T>() {
                lemma_heapified_is_heap(vec@);
            }
        }
        let mut heap = BinaryHeap { data: vec };
        heap.rebuild();
        heap
    }
}

/// An owning iterator over the elements of a [`BinaryHeap`], in storage
/// order.
#[derive(Clone)]
pub struct IntoIter<T> {
    /// What is still to come, the next element last.
    rest: Vec<T>,
}

impl<T> View for IntoIter<T> {
    type V = Seq<T>;

    /// The elements still to come, the next one first.
    closed spec fn view(&self) -> Seq<T> {
        self.rest@.reverse()
    }
}

impl<T> IntoIter<T> {
    /// Hands out the next element, or `None` once all have been handed out.
    pub fn next(&mut self) -> (item: Option<T>)
        ensures
            item == draw_value(old(self)@),
            final(self)@ == after_draw(old(self)@),
    {
        let item = self.rest.pop();
        proof {
            assert(self@ =~= after_draw(old(self)@));
        }
        item
    }

    /// The number of elements still to come, as a lower and an upper bound.
    /// Both are exact.
    pub fn size_hint(&self) -> (hint: (usize, Option<usize>))
        ensures
            hint.0 == self@.len(),
            hint.1 == Some(hint.0),
    {
        let n = self.rest.len();
        (n, Some(n))
    }

    /// Hands out all the elements still to come, in order.
    pub fn collect(self) -> (items: Vec<T>)
        ensures
            items@ == self@,
    {
        let mut rest = self.rest;
        let mut items: Vec<T> = Vec::new();
        while rest.len() > 0
            invariant
                items@ + rest@.reverse() == self@,
            decreases rest@.len(),
        {
            let ghost before = rest@;
            let item = rest.pop().unwrap();
            items.push(item);
            proof {
                assert(before.reverse() =~= seq![item] + rest@.reverse());
                assert(items@ + rest@.reverse() =~= (items@.drop_last() + before.reverse()));
            }
        }
        proof {
            assert(items@ =~= items@ + rest@.reverse());
        }
        items
    }
}

impl<T> BinaryHeap<T> {
    /// Creates a consuming iterator: one that moves each element out of the
    /// heap, in storage order, which in general is not sorted order.
    pub fn into_iter(self) -> (iter: IntoIter<T>)
        ensures
            iter@ == self@,
    {
        let mut data = self.data;
        let mut rest: Vec<T> = Vec::new();
        while data.len() > 0
            invariant
                data@ + rest@.reverse() == self@,
            decreases data@.len(),
        {
            let ghost before = data@;
            let item = data.pop().unwrap();
            rest.push(item);
            proof {
                assert(rest@.reverse() =~= seq![item] + rest@.drop_last().reverse());
                assert(data@ + rest@.reverse() =~= before + rest@.drop_last().reverse());
            }
        }
        proof {
            assert(rest@.reverse() =~= data@ + rest@.reverse());
        }
        IntoIter { rest }
    }
}

} // verus!
