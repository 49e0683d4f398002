use vstd::prelude::*;
use zeroize::Zeroize;

verus! {

/// Overwrites every byte of `bytes` with zero through `zeroize::Zeroize` for
/// arrays (volatile writes the optimizer may not remove). The contract claims
/// the array is all zeros afterwards, and that the call neither panics nor
/// unwinds, as the loop of writes cannot.
#[verifier::external_body]
pub(crate) fn wipe_array<const N: usize>(bytes: &mut [u8; N])
    ensures
        final(bytes)@ == Seq::new(N as nat, |_i: int| 0u8),
    opens_invariants none
    no_unwind
{
    bytes.zeroize()
}

/// `zeroize::Zeroize` for `Vec<u8>`: zeroes the elements and the spare
/// capacity, then clears the vector. The contract claims the vector is empty
/// afterwards and that the call does not unwind (it only writes and truncates).
#[verifier::external_body]
pub(crate) fn wipe_bytes(bytes: &mut Vec<u8>)
    ensures
        final(bytes)@ == Seq::<u8>::empty(),
    opens_invariants none
    no_unwind
{
    bytes.zeroize()
}

/// `zeroize::Zeroize` for `Vec<u64>`: zeroes the elements and the spare
/// capacity, then clears the vector. The contract claims the vector is empty
/// afterwards and that the call does not unwind (it only writes and truncates).
#[verifier::external_body]
pub(crate) fn wipe_words(words: &mut Vec<u64>)
    ensures
        final(words)@ == Seq::<u64>::empty(),
    opens_invariants none
    no_unwind
{
    words.zeroize()
}

/// `zeroize::Zeroize` for the slice of a `Vec<u64>`: overwrites every element
/// with zero (volatile writes) and keeps the length. The contract claims the
/// vector then holds as many zeros as it held words, and that the call does
/// not unwind (the length assertion in the source holds for every allocated
/// slice).
#[verifier::external_body]
pub(crate) fn zero_words(words: &mut Vec<u64>)
    ensures
        final(words)@ == Seq::new(old(words)@.len(), |_i: int| 0u64),
    opens_invariants none
    no_unwind
{
    words.as_mut_slice().zeroize()
}

} // verus!
