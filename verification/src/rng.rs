use vstd::prelude::*;
use rand::seq::SliceRandom;
use rand::Rng;

verus! {

/// A number drawn by `rand::Rng::gen_range` on `lo..hi` from the thread's
/// generator. The contract claims what the crate's uniform sampler for `i32`
/// guarantees: the draw lies in the half-open range, which must not be empty
/// (an empty range panics there). Which number comes is left open.
#[verifier::external_body]
pub fn random_range(lo: i32, hi: i32) -> (r: i32)
    requires
        lo < hi,
    ensures
        lo <= r < hi,
{
    rand::thread_rng().gen_range(lo..hi)
}

/// A number drawn by `rand::Rng::gen_range` on `lo..=hi` from the thread's
/// generator: the contract claims only that it lies in the closed range,
/// which must not be empty.
#[verifier::external_body]
pub fn random_range_inclusive(lo: i32, hi: i32) -> (r: i32)
    requires
        lo <= hi,
    ensures
        lo <= r <= hi,
{
    rand::thread_rng().gen_range(lo..=hi)
}

/// `rand::seq::SliceRandom::shuffle` on the items, with the thread's
/// generator. The crate swaps items in place, so the contract claims that the
/// same items come back, each as often as before; their order is left open.
#[verifier::external_body]
pub fn shuffle<T>(items: &mut Vec<T>)
    ensures
        final(items)@.to_multiset() == old(items)@.to_multiset(),
        final(items)@.len() == old(items)@.len(),
{
    items.as_mut_slice().shuffle(&mut rand::thread_rng())
}

/// `rand::seq::SliceRandom::choose` on the items, with the thread's
/// generator: nothing from an empty slice, else one of its items. Which one is
/// left open.
#[verifier::external_body]
pub fn choose_one<T: Copy>(items: &[T]) -> (r: Option<T>)
    ensures
        r is None <==> items@.len() == 0,
        r matches Some(x) ==> items@.contains(x),
{
    items.choose(&mut rand::thread_rng()).copied()
}

/// A draw of `rand::Rng::gen_ratio(numerator, denominator)` from the
/// thread's generator: true with that probability. The crate panics unless
/// the numerator is at most the denominator and the denominator is not zero;
/// its sampler never answers true for a zero numerator and always does for a
/// numerator equal to the denominator. Otherwise which value comes is left open.
#[verifier::external_body]
pub fn random_ratio(numerator: u32, denominator: u32) -> (b: bool)
    requires
        0 < denominator,
        numerator <= denominator,
    ensures
        numerator == 0 ==> !b,
        numerator == denominator ==> b,
{
    rand::thread_rng().gen_ratio(numerator, denominator)
}

} // verus!
