use rand::Rng;
use vstd::prelude::*;

verus! {

/// The thread-local random number generator of `rand`.
#[verifier::external_type_specification]
#[verifier::external_body]
pub struct ExThreadRng(rand::rngs::ThreadRng);

/// Calls `rand::thread_rng`, which hands out the lazily-initialized
/// thread-local generator (it panics if the operating system's entropy source
/// fails at first use); nothing is claimed of it.
#[verifier::external_body]
pub(crate) fn thread_rng() -> rand::rngs::ThreadRng {
    rand::thread_rng()
}

/// Calls `rand::Rng::gen_range(0..bound)`.  As rand documents (and its
/// `UniformInt::sample_single` implements), the result lies in the half-open
/// range `[0, bound)`.  It panics on an empty range, which `bound > 0` rules
/// out, and (like `thread_rng`) when the operating system's entropy source
/// fails while the generator is seeded or reseeded, which no argument governs.
/// Which value comes out depends on chance: nothing more is claimed.
#[verifier::external_body]
pub(crate) fn gen_below(rng: &mut rand::rngs::ThreadRng, bound: u128) -> (r: u128)
    requires
        bound > 0,
    ensures
        r < bound,
{
    rng.gen_range(0..bound)
}

} // verus!
