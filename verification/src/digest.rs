use vstd::prelude::*;

verus! {

/// The 32-byte output of `blake3::hash` on `input`.
pub uninterp spec fn blake3_hash(input: Seq<u8>) -> Seq<u8>;

/// The 32-byte output of `blake3::keyed_hash` under `key` on `input`.
pub uninterp spec fn blake3_keyed_hash(key: Seq<u8>, input: Seq<u8>) -> Seq<u8>;

/// The 32-byte output of `blake3::derive_key` for `context` and `material`.
pub uninterp spec fn blake3_derive_key(context: Seq<char>, material: Seq<u8>) -> Seq<u8>;

/// BLAKE3 hash of `input` (`blake3::hash`, then `Hash::as_bytes`). The result
/// is named, not described: it is `blake3_hash` of the input bytes.
#[verifier::external_body]
pub(crate) fn hash(input: &[u8]) -> (digest: [u8; 32])
    ensures
        digest@ == blake3_hash(input@),
{
    *blake3::hash(input).as_bytes()
}

/// Whether `expected` equals the BLAKE3 hash of `input`, compared through
/// `blake3::Hash`'s constant-time `PartialEq` (`blake3::hash`, `Hash::from`).
/// The contract claims exactly that equality with the named hash.
#[verifier::external_body]
pub(crate) fn hash_matches(expected: &[u8; 32], input: &[u8]) -> (matches: bool)
    ensures
        matches == (expected@ == blake3_hash(input@)),
{
    blake3::Hash::from(*expected) == blake3::hash(input)
}

/// BLAKE3 keyed hash (`blake3::keyed_hash`, then `Hash::as_bytes`) of `input`
/// under the 32-byte `key`. The result is named: `blake3_keyed_hash` of the key
/// and input bytes. BLAKE3 hashes incremental `update` calls exactly as it hashes
/// their concatenation, so callers that feed several pieces pass them joined.
#[verifier::external_body]
pub(crate) fn keyed_hash(key: &[u8; 32], input: &[u8]) -> (digest: [u8; 32])
    ensures
        digest@ == blake3_keyed_hash(key@, input@),
{
    *blake3::keyed_hash(key, input).as_bytes()
}

/// BLAKE3 key derivation (`blake3::derive_key`, which is the same computation as
/// `Hasher::new_derive_key(context)` followed by `update(material)` and
/// `finalize`). The result is named: `blake3_derive_key` of the context
/// characters and the material bytes.
#[verifier::external_body]
pub(crate) fn derive_key(context: &str, material: &[u8]) -> (derived: [u8; 32])
    ensures
        derived@ == blake3_derive_key(context@, material@),
{
    blake3::derive_key(context, material)
}

} // verus!
