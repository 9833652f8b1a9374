//! Work on the items of a list that is handed out to several threads.

use rayon::iter::{IntoParallelRefIterator, ParallelIterator};
use vstd::prelude::*;

verus! {

/// Applies a function to every item of a list with rayon's
/// `par_iter().map(..).collect()`, which hands the items out to a pool of
/// threads and collects the results in the order of the items. The
/// contract claims that there is one result for each item, in that order,
/// and that each is a result of the function for its item.
#[verifier::external_body]
pub(crate) fn par_map<T: Sync, R: Send, F: Fn(&T) -> R + Sync + Send>(items: &Vec<T>, f: F) -> (results:
    Vec<R>)
    requires
        forall|i: int| 0 <= i < items.len() ==> call_requires(f, (&#[trigger] items[i],)),
    ensures
        results.len() == items.len(),
        forall|i: int|
            0 <= i < items.len() ==> call_ensures(f, (&items[i],), #[trigger] results[i]),
{
    items.par_iter().map(f).collect()
}

} // verus!
