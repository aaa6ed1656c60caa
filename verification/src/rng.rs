//! Trusted boundary to the process-local random number generator, used only
//! by scrambling. Nothing downstream depends on which values come back, only
//! on the stated range.

use vstd::prelude::*;
use rand::Rng;

verus! {

#[verifier::external_type_specification]
#[verifier::external_body]
pub struct ExThreadRng(rand::rngs::ThreadRng);

/// Relies on rand::thread_rng: a handle to the lazily-initialized
/// thread-local generator. Nothing is assumed of the values it will produce.
#[verifier::external_body]
pub(crate) fn new_rng() -> rand::rngs::ThreadRng {
    rand::thread_rng()
}

/// Relies on rand::Rng::gen_range on a half-open u32 range: the sample lies
/// within the range. The call panics only on an empty range, which the
/// precondition rules out; nothing else is assumed of the outcome.
#[verifier::external_body]
pub(crate) fn gen_range_u32(rng: &mut rand::rngs::ThreadRng, low: u32, high: u32) -> (r: u32)
    requires
        low < high,
    ensures
        low <= r < high,
{
    rng.gen_range(low..high)
}

} // verus!
