use algokit::merge_sort::sort;
use rand::distributions::Uniform;
use rand::Rng;

fn check_orderly<T: Ord>(a: &[T]) {
    if a.is_empty() {
        return;
    }

    for i in 0..a.len() - 1 {
        assert!(a[i] <= a[i + 1]);
    }
}

#[test]
fn test_basic() {
    let mut data = vec![5, 9, 3];
    let sorted = vec![3, 5, 9];
    sort(&mut data);
    check_orderly(&data);
    assert_eq!(data, sorted);
}

#[test]
fn test_normal() {
    let mut data = vec![2, 4, 6, 2, 1, 8, 10, 3, 5, 7, 0, 9, 1];
    let sorted = vec![0, 1, 1, 2, 2, 3, 4, 5, 6, 7, 8, 9, 10];
    sort(&mut data);
    check_orderly(&data);
    assert_eq!(data, sorted);
}

#[test]
fn test_empty() {
    let mut data: Vec<i32> = vec![];
    let sorted: Vec<i32> = vec![];
    sort(&mut data);
    check_orderly(&data);
    assert_eq!(data, sorted);
}

#[test]
fn test_reverse() {
    let mut data = vec![9, 8, 7, 6, 5, 4, 3, 2, 1];
    let sorted = vec![1, 2, 3, 4, 5, 6, 7, 8, 9];
    sort(&mut data);
    check_orderly(&data);
    assert_eq!(data, sorted);
}

#[test]
fn test_negative() {
    let mut data = vec![-10, 1, 2, 3, 3, -20, 5, 43];
    let sorted = vec![-20, -10, 1, 2, 3, 3, 5, 43];
    sort(&mut data);
    check_orderly(&data);
    assert_eq!(data, sorted);
}

#[test]
fn test_batch() {
    check_orderly(sort::<i32>(&mut []));
    check_orderly(sort(&mut [5]));
    check_orderly(sort(&mut [3, 2]));
    check_orderly(sort(&mut [2, 3]));
    check_orderly(sort(&mut [5, 1, 2]));
    check_orderly(sort(&mut [1, 100, 2, 3]));
    check_orderly(sort(&mut [1, 3, 5, 7, 9, 2, 4, 6, 8, 0]));
    check_orderly(sort(&mut [2, 4, 6, 2, 1, 8, 10, 3, 5, 7, 0, 9, 1]));
    check_orderly(sort(&mut [
        9, 11, 9, 9, 9, 9, 11, 2, 3, 4, 11, 9, 0, 0, 0, 0,
    ]));
    check_orderly(sort(&mut [0, 1, 2, 3, 4, 5, 6, 7, 8, 9, 10]));
    check_orderly(sort(&mut [10, 9, 8, 7, 6, 5, 4, 3, 2, 1, 0]));
    check_orderly(sort(&mut [0, 1, 2, 3, 4, 5, 6, 7, 8, 9, 0, 0, 0, 1, 2]));
    check_orderly(sort(&mut [5, 4, 3, 2, 1, 5, 4, 3, 2, 1, 5, 4, 3, 2, 1]));
}

#[test]
fn test_random_small() {
    let mut rng = rand::thread_rng();
    let range = Uniform::new_inclusive(1, 20);
    let mut data = (&mut rng).sample_iter(range).take(10).collect::<Vec<i32>>();
    sort(&mut data);
    check_orderly(&data);
}

#[test]
fn test_random_large() {
    let mut rng = rand::thread_rng();
    let range = Uniform::new_inclusive(-50000, 50000);
    let mut data = (&mut rng)
        .sample_iter(range)
        .take(50000)
        .collect::<Vec<i32>>();
    sort(&mut data);
    check_orderly(&data);
}
