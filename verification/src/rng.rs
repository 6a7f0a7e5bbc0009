//! The one source of randomness: a uniformly sampled coordinate component,
//! used by mine placement. Every caller is verified for every value the
//! sampler may return.

use rand::Rng;
use vstd::prelude::*;

verus! {

/// Relies on rand::Rng::gen_range over the inclusive range `0..=max`: the
/// sample lies within the range. The value itself is random, so nothing
/// more is assumed of it.
#[verifier::external_body]
pub(crate) fn random_upto(max: u8) -> (r: u8)
    ensures
        r <= max,
{
    rand::thread_rng().gen_range(0..=max)
}

} // verus!
