use forkjoin_bench::reduce::{square, sum_squares_parallel, sum_squares_sequential};

#[test]
fn square_widens() {
    assert_eq!(square(0), 0);
    assert_eq!(square(7), 49);
    assert_eq!(square(3_000_000_000), 9_000_000_000_000_000_000i128);
}

#[test]
fn sum_of_squares_small_ranges() {
    assert_eq!(sum_squares_sequential(0), 0);
    assert_eq!(sum_squares_sequential(1), 0);
    assert_eq!(sum_squares_sequential(4), 14);
    assert_eq!(sum_squares_sequential(10), 285);
    assert_eq!(sum_squares_parallel(0), 0);
    assert_eq!(sum_squares_parallel(1), 0);
    assert_eq!(sum_squares_parallel(4), 14);
    assert_eq!(sum_squares_parallel(10), 285);
}

#[test]
fn sequential_and_parallel_sums_agree() {
    for n in [2u64, 3, 17, 1000, 4097, 100_000] {
        assert_eq!(sum_squares_sequential(n), sum_squares_parallel(n));
    }
}

#[test]
fn sum_of_squares_closed_form() {
    let n: i128 = 1_000_000;
    let expected = (n - 1) * n * (2 * n - 1) / 6;
    assert_eq!(sum_squares_sequential(1_000_000), expected);
    assert_eq!(sum_squares_parallel(1_000_000), expected);
}
