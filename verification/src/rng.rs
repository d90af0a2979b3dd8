//! The random choices of the generators and the solver, drawn from the
//! thread-local generator of the `rand` crate. Nothing is proved of these
//! functions: their contracts state what `rand` documents. The generator
//! itself, `rand::thread_rng()`, panics where the system offers no source of
//! entropy at all; no argument decides that.

use rand::Rng;
use vstd::prelude::*;

verus! {

/// `rand::thread_rng().gen_range(low, high)` on `usize`: some value from
/// `low` up to, not including, `high`. Which one is not specified.
/// `gen_range` panics when `low >= high`, which the precondition excludes.
#[verifier::external_body]
pub(crate) fn random_in(low: usize, high: usize) -> (r: usize)
    requires
        low < high,
    ensures
        low <= r < high,
{
    rand::thread_rng().gen_range(low, high)
}

/// `rand::thread_rng().shuffle(..)` on a slice of bytes: reorders the
/// values in place by swapping pairs of them, so the same values are there
/// afterwards, each as often as before. In which order is not specified.
#[verifier::external_body]
pub(crate) fn shuffle(values: &mut Vec<u8>)
    ensures
        final(values)@.to_multiset() == old(values)@.to_multiset(),
{
    rand::thread_rng().shuffle(values.as_mut_slice());
}

} // verus!
