use algokit::binary_heap::BinaryHeap;

#[test]
fn test_into_iter_collect() {
    let data = vec![-5, -9, -3];
    let iter_out = vec![-9, -5, -3];
    let pq = BinaryHeap::from(data);

    let v: Vec<_> = pq.into_iter().collect();
    assert_eq!(v, iter_out);
}

#[test]
fn test_into_iter_size_hint() {
    let data = vec![-5, -9];
    let pq = BinaryHeap::from(data);

    let mut it = pq.into_iter();

    assert_eq!(it.size_hint(), (2, Some(2)));
    assert_eq!(it.next(), Some(-9));

    assert_eq!(it.size_hint(), (1, Some(1)));
    assert_eq!(it.next(), Some(-5));

    assert_eq!(it.size_hint(), (0, Some(0)));
    assert_eq!(it.next(), None);
}

#[test]
fn test_peek_and_pop() {
    let data = vec![-2, -4, -6, -2, -1, -8, -10, -3, -5, -7, -0, -9, -1];
    let mut sorted = data.clone();
    sorted.sort_by(|a, b| a.cmp(b).reverse());
    let mut heap = BinaryHeap::from(data);
    while !heap.is_empty() {
        assert_eq!(heap.peek().unwrap(), sorted.last().unwrap());
        assert_eq!(heap.pop().unwrap(), sorted.pop().unwrap());
    }
}

#[test]
fn test_push() {
    let mut heap = BinaryHeap::from(vec![-2, -4, -9]);
    assert_eq!(heap.len(), 3);
    assert_eq!(*heap.peek().unwrap(), -9);
    heap.push(-11);
    assert_eq!(heap.len(), 4);
    assert_eq!(*heap.peek().unwrap(), -11);
    heap.push(-5);
    assert_eq!(heap.len(), 5);
    assert_eq!(*heap.peek().unwrap(), -11);
    heap.push(-27);
    assert_eq!(heap.len(), 6);
    assert_eq!(*heap.peek().unwrap(), -27);
    heap.push(-3);
    assert_eq!(heap.len(), 7);
    assert_eq!(*heap.peek().unwrap(), -27);
    heap.push(-103);
    assert_eq!(heap.len(), 8);
    assert_eq!(*heap.peek().unwrap(), -103);
}

fn check_batch(data: Vec<i32>) {
    let mut heap = BinaryHeap::from(data.clone());
    let mut sorted = data;
    sorted.sort();

    for item in sorted {
        assert_eq!(item, heap.pop().unwrap())
    }
}

#[test]
fn test_to_vec() {
    check_batch(vec![]);
    check_batch(vec![5]);
    check_batch(vec![3, 2]);
    check_batch(vec![2, 3]);
    check_batch(vec![5, 1, 2]);
    check_batch(vec![1, 100, 2, 3]);
    check_batch(vec![1, 3, 5, 7, 9, 2, 4, 6, 8, 0]);
    check_batch(vec![2, 4, 6, 2, 1, 8, 10, 3, 5, 7, 0, 9, 1]);
    check_batch(vec![9, 11, 9, 9, 9, 9, 11, 2, 3, 4, 11, 9, 0, 0, 0, 0]);
    check_batch(vec![0, 1, 2, 3, 4, 5, 6, 7, 8, 9, 10]);
    check_batch(vec![10, 9, 8, 7, 6, 5, 4, 3, 2, 1, 0]);
    check_batch(vec![0, 1, 2, 3, 4, 5, 6, 7, 8, 9, 0, 0, 0, 1, 2]);
    check_batch(vec![5, 4, 3, 2, 1, 5, 4, 3, 2, 1, 5, 4, 3, 2, 1]);
}

#[test]
fn test_empty_pop() {
    let mut heap = BinaryHeap::<i32>::new();
    assert!(heap.pop().is_none());
}

#[test]
fn test_empty_peek() {
    let empty = BinaryHeap::<i32>::new();
    assert!(empty.peek().is_none());
}
