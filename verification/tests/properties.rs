use algokit::binary_heap::BinaryHeap;
use algokit::stack::Stack;
use std::cmp::Ordering;

/// A value that is ordered by its key alone, so that level values can be
/// told apart by their tag.
#[derive(Clone, Copy, Debug)]
struct Keyed {
    key: i32,
    tag: char,
}

impl PartialEq for Keyed {
    fn eq(&self, other: &Self) -> bool {
        self.key == other.key
    }
}

impl Eq for Keyed {}

impl PartialOrd for Keyed {
    fn partial_cmp(&self, other: &Self) -> Option<Ordering> {
        Some(self.cmp(other))
    }
}

impl Ord for Keyed {
    fn cmp(&self, other: &Self) -> Ordering {
        self.key.cmp(&other.key)
    }
}

fn keyed(key: i32, tag: char) -> Keyed {
    Keyed { key, tag }
}

fn tags(items: &[Keyed]) -> String {
    items.iter().map(|item| item.tag).collect()
}

fn assert_heap_order(storage: &[i32]) {
    for i in 0..storage.len() {
        if 2 * i + 1 < storage.len() {
            assert!(storage[i] <= storage[2 * i + 1]);
        }
        if 2 * i + 2 < storage.len() {
            assert!(storage[i] <= storage[2 * i + 2]);
        }
    }
}

fn drain(mut heap: BinaryHeap<i32>) -> Vec<i32> {
    let mut out = Vec::new();
    while let Some(item) = heap.pop() {
        out.push(item);
    }
    out
}

#[test]
fn heap_order_holds_after_bulk_construction() {
    let heap = BinaryHeap::from(vec![2, 4, 6, 2, 1, 8, 10, 3, 5, 7, 0, 9, 1]);
    let storage = heap.into_iter().collect();
    assert_eq!(storage.len(), 13);
    assert_heap_order(&storage);
    assert_eq!(storage[0], 0);
}

#[test]
fn heap_order_holds_after_pushes_and_pops() {
    let mut heap = BinaryHeap::from(vec![9, 11, 9, 9, 9, 9, 11, 2, 3, 4, 11, 9, 0, 0, 0, 0]);
    heap.push(5);
    heap.push(-1);
    assert_eq!(heap.pop(), Some(-1));
    assert_eq!(heap.pop(), Some(0));
    heap.push(1);
    heap.push(12);
    assert_eq!(heap.pop(), Some(0));
    let storage = heap.into_iter().collect();
    assert_eq!(storage.len(), 17);
    assert_heap_order(&storage);
}

#[test]
fn bulk_construction_sifts_bottom_up() {
    // 4 is sifted first (below 1), then 5 (below 1, then below 2).
    let heap = BinaryHeap::from(vec![5, 4, 3, 1, 2]);
    assert_eq!(heap.into_iter().collect(), vec![1, 2, 3, 4, 5]);

    let heap = BinaryHeap::from(vec![3, 2, 1]);
    assert_eq!(heap.into_iter().collect(), vec![1, 2, 3]);

    let heap = BinaryHeap::from(vec![1, 2, 3, 4]);
    assert_eq!(heap.into_iter().collect(), vec![1, 2, 3, 4]);
}

#[test]
fn push_sifts_up_along_the_parents() {
    let mut heap = BinaryHeap::new();
    heap.push(5);
    heap.push(3);
    heap.push(4);
    heap.push(1);
    // 1 enters at index 3, passes 5 at index 1 and 3 at index 0.
    assert_eq!(heap.into_iter().collect(), vec![1, 3, 4, 5]);
}

#[test]
fn pop_moves_the_last_element_to_the_root_and_sifts_it_down() {
    let mut heap = BinaryHeap::from(vec![1, 2, 3, 4, 5]);
    assert_eq!(heap.pop(), Some(1));
    // 5 goes to the root, then below 2, then below 4.
    assert_eq!(heap.into_iter().collect(), vec![2, 4, 3, 5]);
}

#[test]
fn sift_down_prefers_the_left_child_among_level_children() {
    let heap = BinaryHeap::from(vec![keyed(2, 'a'), keyed(1, 'b'), keyed(1, 'c')]);
    assert_eq!(tags(&heap.into_iter().collect()), "bac");
}

#[test]
fn sift_down_takes_the_right_child_only_if_it_is_strictly_smaller() {
    let heap = BinaryHeap::from(vec![keyed(3, 'a'), keyed(2, 'b'), keyed(1, 'c')]);
    assert_eq!(tags(&heap.into_iter().collect()), "cba");

    // The left child is level with the item, the right one is smaller.
    let heap = BinaryHeap::from(vec![keyed(2, 'a'), keyed(2, 'b'), keyed(1, 'c')]);
    assert_eq!(tags(&heap.into_iter().collect()), "cba");
}

#[test]
fn sift_down_leaves_an_item_that_is_level_with_its_children() {
    let heap = BinaryHeap::from(vec![keyed(1, 'a'), keyed(1, 'b'), keyed(1, 'c')]);
    assert_eq!(tags(&heap.into_iter().collect()), "abc");
}

#[test]
fn sift_up_stops_below_a_level_parent() {
    let mut heap = BinaryHeap::new();
    heap.push(keyed(1, 'a'));
    heap.push(keyed(1, 'b'));
    heap.push(keyed(1, 'c'));
    assert_eq!(tags(&heap.into_iter().collect()), "abc");
}

#[test]
fn popping_until_empty_sorts() {
    let heap = BinaryHeap::from(vec![2, 4, 6, 2, 1, 8, 10, 3, 5, 7, 0, 9, 1]);
    assert_eq!(drain(heap), vec![0, 1, 1, 2, 2, 3, 4, 5, 6, 7, 8, 9, 10]);
}

#[test]
fn len_counts_pushes_less_pops() {
    let mut heap = BinaryHeap::new();
    assert!(heap.is_empty());
    assert_eq!(heap.len(), 0);
    for (pushed, item) in [7, 3, 9, 3, 1].into_iter().enumerate() {
        heap.push(item);
        assert_eq!(heap.len(), pushed + 1);
        assert!(!heap.is_empty());
    }
    for popped in 1..=3 {
        assert!(heap.pop().is_some());
        assert_eq!(heap.len(), 5 - popped);
    }
    heap.push(4);
    assert_eq!(heap.len(), 3);
    assert!(heap.pop().is_some());
    assert!(heap.pop().is_some());
    assert!(!heap.is_empty());
    assert!(heap.pop().is_some());
    assert_eq!(heap.len(), 0);
    assert!(heap.is_empty());
}

#[test]
fn peek_shows_what_pop_hands_out() {
    let mut heap = BinaryHeap::from(vec![8, -3, 5, -3, 12, 0]);
    while !heap.is_empty() {
        let len = heap.len();
        let shown = *heap.peek().unwrap();
        assert_eq!(heap.len(), len);
        assert_eq!(heap.pop(), Some(shown));
        assert_eq!(heap.len(), len - 1);
    }
}

#[test]
fn an_empty_heap_stays_empty() {
    let mut heap = BinaryHeap::<i32>::new();
    for _ in 0..3 {
        assert_eq!(heap.pop(), None);
        assert_eq!(heap.peek(), None);
        assert_eq!(heap.len(), 0);
        assert!(heap.is_empty());
    }
    heap.push(1);
    assert_eq!(heap.pop(), Some(1));
    assert_eq!(heap.pop(), None);
    assert_eq!(heap.peek(), None);
}

#[test]
fn a_single_element_is_popped_directly() {
    let mut heap = BinaryHeap::from(vec![42]);
    assert_eq!(heap.peek(), Some(&42));
    assert_eq!(heap.pop(), Some(42));
    assert!(heap.is_empty());
}

#[test]
fn the_default_heap_is_empty() {
    let mut heap: BinaryHeap<u8> = BinaryHeap::default();
    assert!(heap.is_empty());
    assert_eq!(heap.pop(), None);
}

#[test]
fn the_hint_counts_what_is_left_exactly() {
    let given = vec![6, 1, 5, 2, 4, 3, 0];
    let n = given.len();
    let mut iter = BinaryHeap::from(given).into_iter();
    for k in 0..n {
        assert_eq!(iter.size_hint(), (n - k, Some(n - k)));
        assert!(iter.next().is_some());
    }
    assert_eq!(iter.size_hint(), (0, Some(0)));
    assert_eq!(iter.next(), None);
    assert_eq!(iter.next(), None);
    assert_eq!(iter.size_hint(), (0, Some(0)));
}

#[test]
fn iteration_over_an_empty_heap_hands_out_nothing() {
    let mut iter = BinaryHeap::<i32>::new().into_iter();
    assert_eq!(iter.size_hint(), (0, Some(0)));
    assert_eq!(iter.next(), None);
    assert_eq!(iter.collect(), Vec::<i32>::new());
}

#[test]
fn iteration_follows_storage_order_not_sorted_order() {
    let mut iter = BinaryHeap::from(vec![1, 5, 2, 6, 7, 3]).into_iter();
    assert_eq!(iter.next(), Some(1));
    assert_eq!(iter.next(), Some(5));
    assert_eq!(iter.collect(), vec![2, 6, 7, 3]);
}

#[test]
fn a_cloned_iterator_goes_its_own_way() {
    let mut iter = BinaryHeap::from(vec![3, 1, 2]).into_iter();
    assert_eq!(iter.next(), Some(1));
    let mut copy = iter.clone();
    assert_eq!(iter.next(), Some(3));
    assert_eq!(copy.next(), Some(3));
    assert_eq!(copy.next(), Some(2));
    assert_eq!(copy.next(), None);
    assert_eq!(iter.size_hint(), (1, Some(1)));
}

#[test]
fn heap_round_trip_agrees_with_both_sorts() {
    let inputs: Vec<Vec<i32>> = vec![
        vec![],
        vec![5],
        vec![3, 2],
        vec![2, 4, 6, 2, 1, 8, 10, 3, 5, 7, 0, 9, 1],
        vec![9, 11, 9, 9, 9, 9, 11, 2, 3, 4, 11, 9, 0, 0, 0, 0],
        vec![-10, 1, 2, 3, 3, -20, 5, 43],
        vec![i32::MAX, i32::MIN, 0, -1, 1],
    ];
    for given in inputs {
        let drained = drain(BinaryHeap::from(given.clone()));

        let mut merged = given.clone();
        algokit::merge_sort::sort(&mut merged);
        assert_eq!(drained, merged);

        let mut quick = given.clone();
        algokit::quick_sort::sort(&mut quick);
        assert_eq!(drained, quick);

        let mut expected = given;
        expected.sort();
        assert_eq!(drained, expected);
    }
}

#[test]
fn merge_sort_keeps_level_elements_in_their_order() {
    let mut data = [
        keyed(2, 'a'),
        keyed(1, 'b'),
        keyed(2, 'c'),
        keyed(1, 'd'),
        keyed(0, 'e'),
        keyed(2, 'f'),
        keyed(1, 'g'),
    ];
    algokit::merge_sort::sort(&mut data);
    assert_eq!(tags(&data), "ebdgacf");
}

#[test]
fn the_sorts_hand_back_the_slice_they_were_given() {
    let mut data = [3, 1, 2];
    let handed_back = algokit::merge_sort::sort(&mut data);
    handed_back[0] = 7;
    assert_eq!(data, [7, 2, 3]);

    let mut data = [3, 1, 2];
    let handed_back = algokit::quick_sort::sort(&mut data);
    handed_back[2] = 0;
    assert_eq!(data, [1, 2, 0]);
}

#[test]
fn quick_sort_sorts_ranges_of_every_small_shape() {
    // Every arrangement of keys out of {0, 1, 2} in up to five places.
    for len in 0..=5u32 {
        for code in 0..3u32.pow(len) {
            let mut data: Vec<u32> = (0..len).map(|place| code / 3u32.pow(place) % 3).collect();
            let mut expected = data.clone();
            expected.sort();
            algokit::quick_sort::sort(&mut data);
            assert_eq!(data, expected);
        }
    }
}

#[test]
fn merge_sort_sorts_ranges_of_every_small_shape() {
    for len in 0..=5u32 {
        for code in 0..3u32.pow(len) {
            let mut data: Vec<u32> = (0..len).map(|place| code / 3u32.pow(place) % 3).collect();
            let mut expected = data.clone();
            expected.sort();
            algokit::merge_sort::sort(&mut data);
            assert_eq!(data, expected);
        }
    }
}

#[test]
fn quick_sort_keeps_every_element() {
    let mut data = [
        keyed(2, 'a'),
        keyed(1, 'b'),
        keyed(2, 'c'),
        keyed(1, 'd'),
        keyed(0, 'e'),
    ];
    algokit::quick_sort::sort(&mut data);
    let keys: Vec<i32> = data.iter().map(|item| item.key).collect();
    assert_eq!(keys, vec![0, 1, 1, 2, 2]);
    let mut seen: Vec<char> = data.iter().map(|item| item.tag).collect();
    seen.sort();
    assert_eq!(seen, vec!['a', 'b', 'c', 'd', 'e']);
}

#[test]
fn the_stack_hands_out_the_last_pushed_first() {
    let mut stack = Stack::default();
    assert_eq!(stack.peek(), None);
    for item in 0..5 {
        stack.push(item);
        assert_eq!(stack.peek(), Some(&item));
    }
    for item in (0..5).rev() {
        assert_eq!(stack.pop(), Some(item));
    }
    assert_eq!(stack.pop(), None);
    assert_eq!(stack.pop(), None);
}

#[test]
fn peek_mut_changes_the_first_element_only() {
    let mut stack = Stack::new();
    stack.push(1);
    stack.push(2);
    *stack.peek_mut().unwrap() += 10;
    assert_eq!(stack.pop(), Some(12));
    assert_eq!(stack.pop(), Some(1));
    assert_eq!(stack.peek_mut(), None);
}

#[test]
fn iter_leaves_the_stack_as_it_is() {
    let mut stack = Stack::new();
    stack.push('a');
    stack.push('b');
    let mut iter = stack.iter();
    assert_eq!(iter.next(), Some(&'b'));
    assert_eq!(iter.next(), Some(&'a'));
    assert_eq!(iter.next(), None);
    assert_eq!(iter.next(), None);
    assert_eq!(stack.pop(), Some('b'));
    assert_eq!(stack.pop(), Some('a'));
}

#[test]
fn iteration_over_an_empty_stack_hands_out_nothing() {
    let stack = Stack::<i32>::new();
    assert_eq!(stack.iter().next(), None);
    assert_eq!(stack.into_iter().next(), None);
}

#[test]
fn a_long_stack_is_released_without_deep_recursion() {
    let mut stack = Stack::new();
    for item in 0..1_000_000u32 {
        stack.push(item);
    }
    assert_eq!(stack.peek(), Some(&999_999));
    drop(stack);

    let mut stack = Stack::new();
    for item in 0..1_000_000u32 {
        stack.push(item);
    }
    let mut iter = stack.into_iter();
    assert_eq!(iter.next(), Some(999_999));
    drop(iter);
}
