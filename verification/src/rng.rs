//! The crate's single source of randomness: a handle to the `rand`
//! crate's thread-local generator, passed explicitly through grid
//! construction and start-column selection so that callers control it.

use vstd::prelude::*;

verus! {

#[verifier::external_type_specification]
#[verifier::external_body]
pub struct ExThreadRng(rand::rngs::ThreadRng);

/// Relies on rand's `Rng::gen_range`: a sample drawn from `0..n` lies in
/// that range. The call panics only on an empty range, which the
/// precondition rules out; nothing else is assumed of the sample, so two
/// calls on the same arguments may differ.
#[verifier::external_body]
pub(crate) fn rand_index(rng: &mut rand::rngs::ThreadRng, n: usize) -> (r: usize)
    requires
        n >= 1,
    ensures
        r < n,
{
    rand::Rng::gen_range(rng, 0..n)
}

} // verus!
