//! Running independent jobs on all cores.
use rayon::iter::{IntoParallelRefIterator, ParallelIterator};
use vstd::prelude::*;

verus! {

/// Apply `f` to every item, in parallel, and collect the results in order.
///
/// Trusted: `rayon`'s parallel iterator over a vector, mapped and collected,
/// returns as many results as there are items, and result `i` is what `f` returned
/// for item `i`, whatever order the calls ran in.
#[verifier::external_body]
pub(crate) fn par_map<T: Sync, U: Send, F: Fn(&T) -> U + Sync + Send>(
    items: &Vec<T>,
    f: F,
) -> (r: Vec<U>)
    requires
        forall|i: int| 0 <= i < items@.len() ==> call_requires(f, (&items@[i],)),
    ensures
        r@.len() == items@.len(),
        forall|i: int| 0 <= i < items@.len() ==> call_ensures(f, (&items@[i],), #[trigger] r@[i]),
{
    items.par_iter().map(|x| f(x)).collect()
}

} // verus!
