//! Sorting a sequence of integers on one thread and on the thread pool.
use rand::Rng;
use vstd::prelude::*;
use vstd::relations::{sorted_by, total_ordering};
use vstd::seq_lib::lemma_sorted_unique;

verus! {

/// Exclusive upper bound of the generated values.
pub const VALUE_BOUND: i32 = 1_000_000;

/// `s` is in non-decreasing order.
pub open spec fn is_sorted(s: Seq<i32>) -> bool {
    forall|i: int, j: int| 0 <= i <= j < s.len() ==> s[i] <= s[j]
}

/// `out` is a sorted rearrangement of `input`.
pub open spec fn sorts(input: Seq<i32>, out: Seq<i32>) -> bool {
    &&& out.to_multiset() == input.to_multiset()
    &&& is_sorted(out)
}

/// Relies on rand's `Rng::gen_range` on the thread-local generator: a value
/// drawn from `[0, bound)` (the range must not be empty).
#[verifier::external_body]
fn random_below(bound: i32) -> (r: i32)
    requires
        bound > 0,
    ensures
        0 <= r < bound,
{
    rand::thread_rng().gen_range(0..bound)
}

/// Relies on std's `slice::sort`: the slice is rearranged into non-decreasing
/// order (a stable sort on the calling thread).
#[verifier::external_body]
fn std_sort(v: &mut Vec<i32>)
    ensures
        final(v)@.to_multiset() == old(v)@.to_multiset(),
        is_sorted(final(v)@),
{
    v.sort();
}

/// `size` values drawn at random from `[0, VALUE_BOUND)`.
pub fn random_input(size: usize) -> (r: Vec<i32>)
    ensures
        r@.len() == size,
        forall|i: int| 0 <= i < size ==> 0 <= #[trigger] r@[i] < VALUE_BOUND,
{
    let mut out: Vec<i32> = Vec::new();
    let mut i: usize = 0;
    while i < size
        invariant
            i <= size,
            out@.len() == i,
            forall|j: int| 0 <= j < i ==> 0 <= #[trigger] out@[j] < VALUE_BOUND,
        decreases size - i,
    {
        out.push(random_below(VALUE_BOUND));
        i = i + 1;
    }
    out
}

fn copy_of(data: &Vec<i32>) -> (r: Vec<i32>)
    ensures
        r@ == data@,
{
    let mut out: Vec<i32> = Vec::new();
    let mut i: usize = 0;
    while i < data.len()
        invariant
            i <= data@.len(),
            out@ == data@.subrange(0, i as int),
        decreases data@.len() - i,
    {
        out.push(data[i]);
        i = i + 1;
        assert(out@ =~= data@.subrange(0, i as int));
    }
    assert(out@ =~= data@);
    out
}

/// A sorted copy of `data`, sorted on the calling thread.
pub fn sort_sequential(data: &Vec<i32>) -> (r: Vec<i32>)
    ensures
        sorts(data@, r@),
{
    let mut out = copy_of(data);
    std_sort(&mut out);
    out
}

/// A sorted copy of `data`, sorted on the thread pool.
pub fn sort_parallel(data: &Vec<i32>) -> (r: Vec<i32>)
    ensures
        sorts(data@, r@),
{
    let mut out = copy_of(data);
    crate::parallel::par_sort(&mut out);
    out
}

/// Two sorted rearrangements of the same input are equal element by element:
/// whatever order a parallel sort merges its runs in, it must agree with the
/// sequential sort.
pub proof fn lemma_sorts_unique(input: Seq<i32>, a: Seq<i32>, b: Seq<i32>)
    requires
        sorts(input, a),
        sorts(input, b),
    ensures
        a == b,
{
    let leq = |x: i32, y: i32| x <= y;
    assert(total_ordering(leq));
    assert(sorted_by(a, leq));
    assert(sorted_by(b, leq));
    lemma_sorted_unique(a, b, leq);
}

/// Compares two sequences element by element.
pub fn same_values(a: &Vec<i32>, b: &Vec<i32>) -> (r: bool)
    ensures
        r == (a@ == b@),
{
    if a.len() != b.len() {
        return false;
    }
    let mut i: usize = 0;
    while i < a.len()
        invariant
            a@.len() == b@.len(),
            i <= a@.len(),
            forall|j: int| 0 <= j < i ==> a@[j] == b@[j],
        decreases a@.len() - i,
    {
        if a[i] != b[i] {
            return false;
        }
        i = i + 1;
    }
    assert(a@ =~= b@);
    true
}

} // verus!
