use rand::rngs::StdRng;
use rand::Rng;
use vstd::prelude::*;

verus! {

/// The seedable generator every random draw of the library comes from.
#[verifier::external_type_specification]
#[verifier::external_body]
pub struct ExStdRng(StdRng);

/// Relies on `rand::Rng::gen_range` over the given generator: a draw from `0..n`,
/// which panics only on an empty range.
#[verifier::external_body]
pub(crate) fn random_below(rng: &mut StdRng, n: usize) -> (r: usize)
    requires
        n > 0,
    ensures
        r < n,
{
    rng.gen_range(0..n)
}

/// Relies on `rand::Rng::gen_range` over the given generator: a draw from `lo..=hi`,
/// which panics only on an empty range.
#[verifier::external_body]
pub(crate) fn random_between(rng: &mut StdRng, lo: i32, hi: i32) -> (r: i32)
    requires
        lo <= hi,
    ensures
        lo <= r <= hi,
{
    rng.gen_range(lo..=hi)
}

/// Relies on `rand::Rng::gen::<bool>` over the given generator: a fair coin.
#[verifier::external_body]
pub(crate) fn random_coin(rng: &mut StdRng) -> (r: bool) {
    rng.gen::<bool>()
}

/// Relies on `rand::Rng::gen_ratio` over the given generator: true with probability
/// `numerator / denominator`; always false for a zero numerator and always true
/// when both are equal. It panics when the denominator is zero or below the numerator.
#[verifier::external_body]
pub(crate) fn random_ratio(rng: &mut StdRng, numerator: u32, denominator: u32) -> (r: bool)
    requires
        0 < denominator,
        numerator <= denominator,
    ensures
        numerator == 0 ==> !r,
        numerator == denominator ==> r,
{
    rng.gen_ratio(numerator, denominator)
}

} // verus!
