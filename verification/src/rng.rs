//! The pseudo-random generator used by the search, behind trusted
//! declarations: a 128-bit-state permuted congruential generator from the
//! `rand_pcg` crate.

use vstd::prelude::*;

verus! {

/// The generator type of the `rand_pcg` crate, declared so signatures
/// can carry it.  Its state is opaque here.
#[verifier::external_type_specification]
#[verifier::external_body]
pub struct ExPcg64(rand_pcg::Lcg128Xsl64);

/// Relies on `rand::Rng::gen_range`: a value drawn uniformly from
/// `[0, n)`.  It panics only on an empty range, which the precondition
/// rules out.
#[verifier::external_body]
pub(crate) fn rng_below(rng: &mut rand_pcg::Pcg64, n: usize) -> (r: usize)
    requires
        n >= 1,
    ensures
        r < n,
{
    rand::Rng::gen_range(rng, 0..n)
}

} // verus!
