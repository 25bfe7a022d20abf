//! Reduction of `x * x` over an integer range.
use vstd::prelude::*;

verus! {

/// The sum of `x * x` for `x` in `[lo, hi)`; zero when the range is empty.
pub open spec fn sum_squares(lo: int, hi: int) -> int
    decreases hi - lo,
{
    if hi <= lo {
        0
    } else {
        sum_squares(lo, hi - 1) + (hi - 1) * (hi - 1)
    }
}

/// Splitting a range at any point and adding the two partial reductions gives
/// the reduction of the whole range: this is what lets a fork-join scheduler
/// cut `[lo, hi)` wherever it likes without changing the result.
pub proof fn lemma_sum_squares_split(lo: int, mid: int, hi: int)
    requires
        lo <= mid <= hi,
    ensures
        sum_squares(lo, hi) == sum_squares(lo, mid) + sum_squares(mid, hi),
    decreases hi - mid,
{
    if hi > mid {
        lemma_sum_squares_split(lo, mid, hi - 1);
    }
}

/// Every partial reduction of a prefix is non-negative and at most the whole.
pub proof fn lemma_sum_squares_monotone(lo: int, i: int, hi: int)
    requires
        lo <= i <= hi,
    ensures
        0 <= sum_squares(lo, i) <= sum_squares(lo, hi),
    decreases hi - i,
{
    if i < hi {
        lemma_sum_squares_monotone(lo, i, hi - 1);
        assert((hi - 1) * (hi - 1) >= 0) by (nonlinear_arith);
    } else {
        lemma_sum_squares_nonneg(lo, i);
    }
}

proof fn lemma_sum_squares_nonneg(lo: int, hi: int)
    ensures
        sum_squares(lo, hi) >= 0,
    decreases hi - lo,
{
    if hi > lo {
        lemma_sum_squares_nonneg(lo, hi - 1);
        assert((hi - 1) * (hi - 1) >= 0) by (nonlinear_arith);
    }
}

/// The square of `x`, widened to `i128`.
pub fn square(x: u64) -> (r: i128)
    requires
        x * x <= i128::MAX,
    ensures
        r as int == x * x,
{
    let w = x as i128;
    w * w
}

/// Adds up `x * x` for `x` in `[0, n)` one value after another on the calling
/// thread.
pub fn sum_squares_sequential(n: u64) -> (r: i128)
    requires
        sum_squares(0, n as int) <= i128::MAX,
    ensures
        r as int == sum_squares(0, n as int),
{
    let mut acc: i128 = 0;
    let mut x: u64 = 0;
    while x < n
        invariant
            x <= n,
            acc as int == sum_squares(0, x as int),
            sum_squares(0, n as int) <= i128::MAX,
        decreases n - x,
    {
        proof {
            lemma_sum_squares_monotone(0, x + 1, n as int);
            lemma_sum_squares_nonneg(0, x as int);
            assert(sum_squares(0, x + 1) == sum_squares(0, x as int) + x * x);
        }
        acc = acc + square(x);
        x = x + 1;
    }
    acc
}

/// Adds up `x * x` for `x` in `[0, n)` with a fork-join reduction on the
/// thread pool; the result is the same integer as the sequential one.
pub fn sum_squares_parallel(n: u64) -> (r: i128)
    requires
        sum_squares(0, n as int) <= i128::MAX,
    ensures
        r as int == sum_squares(0, n as int),
{
    crate::parallel::par_sum_squares(n)
}

} // verus!
