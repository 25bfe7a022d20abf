//! Thin, trusted entry points into the rayon thread pool.
use rayon::iter::{IntoParallelIterator, ParallelIterator};
use rayon::slice::ParallelSliceMut;
use vstd::prelude::*;

verus! {

/// Relies on rayon's parallel `sum` over `(0..n).into_par_iter().map(f)`: every
/// item of the range is mapped once and the mapped values are added up (the
/// order of the additions is unspecified, which integer addition does not see).
/// `f` is `square`; the bound in `requires` keeps every partial sum in range.
#[verifier::external_body]
pub(crate) fn par_sum_squares(n: u64) -> (r: i128)
    requires
        crate::reduce::sum_squares(0, n as int) <= i128::MAX,
    ensures
        r as int == crate::reduce::sum_squares(0, n as int),
{
    (0..n).into_par_iter().map(|x| crate::reduce::square(x)).sum::<i128>()
}

/// Relies on rayon's `ParallelSliceMut::par_sort`: the slice is rearranged into
/// non-decreasing order (a stable merge sort run on the pool).
#[verifier::external_body]
pub(crate) fn par_sort(v: &mut Vec<i32>)
    ensures
        final(v)@.to_multiset() == old(v)@.to_multiset(),
        crate::sorting::is_sorted(final(v)@),
{
    v.par_sort();
}

/// Relies on rayon's `(lo..hi).into_par_iter().map(f).collect::<Vec<_>>()`:
/// `f` is called once on every index of the range, possibly on several
/// threads at once, and the results are collected in index order.
#[verifier::external_body]
pub(crate) fn par_map_range<T, F>(lo: usize, hi: usize, f: F) -> (r: Vec<T>) where
    T: Send,
    F: Fn(usize) -> T + Sync + Send,

    requires
        lo <= hi,
        forall|i: usize| lo <= i < hi ==> #[trigger] f.requires((i,)),
    ensures
        r@.len() == hi - lo,
        forall|i: int| 0 <= i < hi - lo ==> #[trigger] f.ensures(((lo + i) as usize,), r@[i]),
{
    (lo..hi).into_par_iter().map(f).collect()
}

} // verus!
