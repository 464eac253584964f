//! Fan-out over the worker pool.

use rayon::iter::{IntoParallelRefIterator, ParallelIterator};
use vstd::prelude::*;

verus! {

/// Applies `f` to every item of `items`, possibly on several threads at once,
/// and returns the results in the order of the items.
///
/// This is rayon's `par_iter()` on a `Vec`, followed by `ParallelIterator::map`
/// and `ParallelIterator::collect` into a `Vec`. The contract is not proved
/// but taken from rayon: `map` calls `f` once on a reference to each item, and
/// `collect` into a `Vec` writes the result for the item at position `i` to
/// position `i`, whichever thread produced it (for an iterator of known
/// length, as this one is, the results are written in place into the new
/// vector). So every result is one that `f` may return for the item in its
/// place, which is all that the contract says.
#[verifier::external_body]
pub(crate) fn par_map<T: Sync, R: Send, F: Fn(&T) -> R + Sync + Send>(
    items: &Vec<T>,
    f: F,
) -> (results: Vec<R>)
    requires
        forall|i: int| 0 <= i < items@.len() ==> call_requires(f, (&#[trigger] items@[i],)),
    ensures
        results@.len() == items@.len(),
        forall|i: int|
            0 <= i < items@.len() ==> call_ensures(f, (&items@[i],), #[trigger] results@[i]),
{
    items.par_iter().map(f).collect()
}

} // verus!
