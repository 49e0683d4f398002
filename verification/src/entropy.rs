use rand::rngs::OsRng;
use rand::seq::SliceRandom;
use rand::RngCore;
use vstd::prelude::*;

verus! {

/// Fills `buf` with bytes from the operating system's random source
/// (`rand::rngs::OsRng` through `RngCore::fill_bytes`). The contract claims
/// only that the length of `buf` is unchanged: the bytes themselves are chance.
/// `fill_bytes` panics when the operating system refuses to supply entropy;
/// that failure is not a function of the arguments and is left unsaid here.
#[verifier::external_body]
pub(crate) fn fill_random(buf: &mut [u8])
    ensures
        final(buf)@.len() == old(buf)@.len(),
{
    OsRng.fill_bytes(buf)
}

/// A random 64-bit value from `rand::rngs::OsRng` through `RngCore::next_u64`.
/// Nothing is claimed of the value.
#[verifier::external_body]
pub(crate) fn random_u64() -> u64 {
    OsRng.next_u64()
}

/// Shuffles `items` in place with `rand::seq::SliceRandom::shuffle` driven by
/// `OsRng`. The shuffle is a Fisher-Yates sequence of swaps, so the contract
/// claims that the result is a permutation of the input: the same multiset of
/// items. The order it picks is chance and is left unsaid.
#[verifier::external_body]
pub(crate) fn shuffle<T>(items: &mut Vec<T>)
    ensures
        final(items)@.to_multiset() == old(items)@.to_multiset(),
{
    items.shuffle(&mut OsRng)
}

} // verus!
