//! Work on many items at once.

use rayon::iter::{IntoParallelRefIterator, ParallelIterator};
use vstd::prelude::*;

verus! {

/// `rayon`'s `par_iter`, `map` and `collect`: applies a function to all items
/// of a vector, on several threads. The results come in the order of the
/// items.
#[verifier::external_body]
pub(crate) fn par_map<T: Sync, U: Send, F: Fn(&T) -> U + Sync + Send>(items: &Vec<T>, f: F) -> (r: Vec<U>)
    requires
        forall|i: int| 0 <= i < items@.len() ==> call_requires(f, (&#[trigger] items@[i],)),
    ensures
        r@.len() == items@.len(),
        forall|i: int| 0 <= i < items@.len() ==> call_ensures(f, (&#[trigger] items@[i],), r@[i]),
{
    items.par_iter().map(f).collect()
}

} // verus!
