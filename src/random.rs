//! Random draws, from `rand`.

use vstd::prelude::*;

use rand::rngs::StdRng;

verus! {

#[verifier::external_type_specification]
#[verifier::external_body]
pub struct ExStdRng(StdRng);

/// Relies on `rand::Rng::gen_range`: a value drawn from `0..n` (it panics
/// on an empty range, which `requires` rules out).
#[verifier::external_body]
pub(crate) fn below(rng: &mut StdRng, n: u128) -> (r: u128)
    requires
        0 < n,
    ensures
        r < n,
{
    rand::Rng::gen_range(rng, 0..n)
}

/// Relies on `rand::seq::index::sample`: exactly `amount` distinct indices
/// drawn from `0..length` (it panics when `amount > length`).
#[verifier::external_body]
pub(crate) fn sample_indices(rng: &mut StdRng, length: usize, amount: usize) -> (r: Vec<usize>)
    requires
        amount <= length,
    ensures
        r.len() == amount,
        forall|i: int| 0 <= i < r.len() ==> #[trigger] r@[i] < length,
        r@.no_duplicates(),
{
    rand::seq::index::sample(rng, length, amount).into_vec()
}

/// Relies on `rand::seq::SliceRandom::shuffle`: the same items in a random
/// order.
#[verifier::external_body]
pub(crate) fn shuffle(rng: &mut StdRng, v: &mut Vec<usize>)
    ensures
        final(v)@.to_multiset() == old(v)@.to_multiset(),
{
    rand::seq::SliceRandom::shuffle(v.as_mut_slice(), rng)
}

/// Relies on `rand::Rng::gen_ratio`: `true` with probability
/// `numerator / denominator`, never for a zero numerator and always when
/// the two are equal (it panics on a zero denominator or a ratio above one).
#[verifier::external_body]
pub(crate) fn chance(rng: &mut StdRng, numerator: u32, denominator: u32) -> (r: bool)
    requires
        0 < denominator,
        numerator <= denominator,
    ensures
        numerator == 0 ==> !r,
        numerator == denominator ==> r,
{
    rand::Rng::gen_ratio(rng, numerator, denominator)
}

} // verus!
