//! Randomness drawn from a cryptographic generator.

use crate::field::F128b;
use rand::rngs::StdRng;
use rand::seq::SliceRandom;
use rand::Rng;
use vstd::prelude::*;

verus! {

/// The generator `rand::rngs::StdRng`. Its state is opaque here: it is only
/// handed on to the call that draws from it.
#[verifier::external_type_specification]
#[verifier::external_body]
pub struct ExStdRng(StdRng);

/// Calls `rand::Rng::gen::<u64>` on the generator. The value depends on the
/// generator's hidden state, so nothing is promised of it.
#[verifier::external_body]
pub(crate) fn random_u64(rng: &mut StdRng) -> (r: u64) {
    rng.gen::<u64>()
}

/// Calls `rand::Rng::gen_range` on the generator with the range from zero
/// up to `n`, without `n`. The call panics on an empty range, so there must
/// be a number below `n`; the value is one of the range.
#[verifier::external_body]
pub(crate) fn random_below(rng: &mut StdRng, n: usize) -> (r: usize)
    requires
        n > 0,
    ensures
        r < n,
{
    rng.gen_range(0..n)
}

/// Calls `rand::seq::SliceRandom::shuffle` on the elements. The shuffle
/// exchanges elements in place, so the elements are the same as before,
/// each as often as before.
#[verifier::external_body]
pub(crate) fn shuffle_fields(v: &mut Vec<F128b>, rng: &mut StdRng)
    ensures
        final(v)@.to_multiset() == old(v)@.to_multiset(),
{
    v.shuffle(rng)
}

/// Draws a uniformly random field element: two draws from the generator,
/// the first for the low half of the coefficients and the second for the
/// high half. Every element can come out, so nothing is promised of it.
pub fn random_field(rng: &mut StdRng) -> (f: F128b) {
    let lo = random_u64(rng);
    let hi = random_u64(rng);
    F128b::from_halves(lo, hi)
}

/// Draws `n` field elements.
pub fn random_fields(rng: &mut StdRng, n: usize) -> (v: Vec<F128b>)
    ensures
        v@.len() == n,
{
    let mut v: Vec<F128b> = Vec::new();
    let mut i: usize = 0;
    while i < n
        invariant
            i <= n,
            v@.len() == i,
        decreases n - i,
    {
        let f = random_field(rng);
        v.push(f);
        i = i + 1;
    }
    v
}

} // verus!
