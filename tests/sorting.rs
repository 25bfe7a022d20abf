use forkjoin_bench::sorting::{random_input, same_values, sort_parallel, sort_sequential, VALUE_BOUND};

#[test]
fn sort_empty() {
    let data: Vec<i32> = Vec::new();
    assert!(sort_sequential(&data).is_empty());
    assert!(sort_parallel(&data).is_empty());
}

#[test]
fn sort_single_element() {
    let data = vec![42];
    assert_eq!(sort_sequential(&data), vec![42]);
    assert_eq!(sort_parallel(&data), vec![42]);
}

#[test]
fn sort_all_duplicates() {
    let data = vec![5; 1000];
    assert_eq!(sort_sequential(&data), data);
    assert_eq!(sort_parallel(&data), data);
}

#[test]
fn sort_orders_values() {
    let data = vec![3, -1, 2, 2, 0, 9, -7];
    let expected = vec![-7, -1, 0, 2, 2, 3, 9];
    assert_eq!(sort_sequential(&data), expected);
    assert_eq!(sort_parallel(&data), expected);
    assert_eq!(data, vec![3, -1, 2, 2, 0, 9, -7]);
}

#[test]
fn random_input_sorted_both_ways_agree() {
    let data = random_input(200_000);
    assert_eq!(data.len(), 200_000);
    assert!(data.iter().all(|&v| (0..VALUE_BOUND).contains(&v)));
    let a = sort_sequential(&data);
    let b = sort_parallel(&data);
    assert!(same_values(&a, &b));
    assert!(a.windows(2).all(|w| w[0] <= w[1]));
    let mut c = data.clone();
    c.sort_unstable();
    assert_eq!(a, c);
}

#[test]
fn same_values_compares_elements() {
    assert!(same_values(&vec![1, 2, 3], &vec![1, 2, 3]));
    assert!(!same_values(&vec![1, 2, 3], &vec![1, 2, 4]));
    assert!(!same_values(&vec![1, 2], &vec![1, 2, 3]));
    assert!(same_values(&Vec::new(), &Vec::new()));
}
