//! Data-parallel evaluation.

use vstd::prelude::*;

verus! {

/// Evaluates `f` on every number below `n`, in parallel, and returns the results in order.
///
/// Calls `rayon::iter::IntoParallelIterator::into_par_iter` on the range, then
/// `rayon::iter::ParallelIterator::map` and `collect`. The range and its map are indexed, so the
/// collected vector holds one result per number, at that number's place; it is taken on trust
/// that each of them is a result of calling `f` on that number.
#[verifier::external_body]
pub(crate) fn par_map<T: Send, F: Fn(usize) -> T + Sync + Send>(n: usize, f: F) -> (r: Vec<T>)
    requires
        forall|i: usize| i < n ==> call_requires(f, (i,)),
    ensures
        r@.len() == n,
        forall|i: usize| i < n ==> call_ensures(f, (i,), #[trigger] r@[i as int]),
{
    rayon::iter::ParallelIterator::collect(
        rayon::iter::ParallelIterator::map(
            rayon::iter::IntoParallelIterator::into_par_iter(0..n),
            f,
        ),
    )
}

/// Evaluates `f` on the place and the value of every item, in parallel, and returns the results
/// in order.
///
/// Calls `rayon::iter::IntoParallelIterator::into_par_iter` on the vector, then
/// `rayon::iter::IndexedParallelIterator::enumerate`, `rayon::iter::ParallelIterator::map` and
/// `collect`. All of these are indexed, so the collected vector holds one result per item, at
/// that item's place; it is taken on trust that each of them is a result of calling `f` on that
/// place and item.
#[verifier::external_body]
pub(crate) fn par_update<T: Send, F: Fn(usize, T) -> T + Sync + Send>(items: Vec<T>, f: F) -> (r:
    Vec<T>)
    requires
        forall|i: usize| i < items@.len() ==> call_requires(f, (i, items@[i as int])),
    ensures
        r@.len() == items@.len(),
        forall|i: usize|
            i < items@.len() ==> call_ensures(f, (i, items@[i as int]), #[trigger] r@[i as int]),
{
    rayon::iter::ParallelIterator::collect(
        rayon::iter::ParallelIterator::map(
            rayon::iter::IndexedParallelIterator::enumerate(
                rayon::iter::IntoParallelIterator::into_par_iter(items),
            ),
            |(i, item)| f(i, item),
        ),
    )
}

} // verus!
