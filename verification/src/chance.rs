//! Random draws.

use vstd::prelude::*;

verus! {

/// Calls `rand::seq::SliceRandom::choose` on the items with the generator
/// that `rand::thread_rng` hands out. Trusted: an empty list gives `None`, any
/// other list gives one of its items. Which item is not stated: it differs
/// from call to call. The generator is seeded by the operating system when a
/// thread first asks for it, and `rand` panics if that fails.
#[verifier::external_body]
pub(crate) fn pick_one<T>(items: &Vec<T>) -> (r: Option<&T>)
    ensures
        items@.len() == 0 ==> r is None,
        items@.len() > 0 ==> r is Some && items@.contains(*r->Some_0),
{
    rand::seq::SliceRandom::choose(items.as_slice(), &mut rand::thread_rng())
}

} // verus!
