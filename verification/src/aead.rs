use chacha20poly1305::aead::{Aead, KeyInit, Payload};
use chacha20poly1305::{XChaCha20Poly1305, XNonce};
use vstd::prelude::*;

verus! {

/// The failure value of the `aead` traits (`chacha20poly1305::Error`), which
/// carries no information.
#[verifier::external_type_specification]
#[verifier::external_body]
pub struct ExAeadError(chacha20poly1305::Error);

/// Poly1305 authentication tag length appended by XChaCha20-Poly1305.
pub const AEAD_TAG_LEN: usize = 16;

/// The longest plaintext or ciphertext body (in bytes) that the
/// ChaCha20 block counter of `chacha20poly1305` 0.10 accepts: a buffer is
/// refused when `len / 64 >= u32::MAX`.
pub open spec fn aead_len_limit() -> int {
    64 * 0xffff_ffffint
}

/// Ciphertext (encrypted bytes followed by the 16-byte tag) that
/// `XChaCha20Poly1305::encrypt` produces for `plaintext` under `key`, `nonce`
/// and associated data `aad`.
pub uninterp spec fn xchacha_seal(key: Seq<u8>, nonce: Seq<u8>, plaintext: Seq<u8>, aad: Seq<u8>) -> Seq<u8>;

/// What `XChaCha20Poly1305::decrypt` returns for `ciphertext` under `key`,
/// `nonce` and `aad`: the plaintext when the tag authenticates, else nothing.
pub uninterp spec fn xchacha_open(key: Seq<u8>, nonce: Seq<u8>, ciphertext: Seq<u8>, aad: Seq<u8>) -> Option<Seq<u8>>;

/// `XChaCha20Poly1305::new` on `key` followed by `Aead::encrypt` of
/// `Payload { msg: plaintext, aad }` under `nonce`.
/// The source of chacha20poly1305 0.10.1 refuses a message only when
/// `len / 64 >= u32::MAX` (block counter exhausted), so the contract claims:
/// success exactly below that limit; the ciphertext is named `xchacha_seal` of
/// the arguments and is 16 bytes (the tag) longer than the plaintext; and
/// decrypting it with the same key, nonce and associated data gives back the
/// plaintext (the defining property of the AEAD, which the crate documents
/// and its stream-cipher-plus-tag construction shows).
#[verifier::external_body]
pub(crate) fn seal(key: &[u8; 32], nonce: &[u8; 24], plaintext: &[u8], aad: &[u8]) -> (result: Result<Vec<u8>, chacha20poly1305::Error>)
    ensures
        result is Ok <==> plaintext@.len() < aead_len_limit(),
        result matches Ok(ciphertext) ==> {
            &&& ciphertext@ == xchacha_seal(key@, nonce@, plaintext@, aad@)
            &&& ciphertext@.len() == plaintext@.len() + AEAD_TAG_LEN
            &&& xchacha_open(key@, nonce@, ciphertext@, aad@) == Some(plaintext@)
        },
{
    XChaCha20Poly1305::new(key.into()).encrypt(XNonce::from_slice(nonce), Payload { msg: plaintext, aad })
}

/// `XChaCha20Poly1305::new` on `key` followed by `Aead::decrypt` of
/// `Payload { msg: ciphertext, aad }` under `nonce`. The contract claims that the
/// result is the named `xchacha_open` of the arguments, and that a success
/// strips exactly the 16-byte tag (the source refuses inputs shorter than the
/// tag and truncates the tag off on success). Whether a given tag
/// authenticates is a cryptographic property and is left unsaid.
#[verifier::external_body]
pub(crate) fn open(key: &[u8; 32], nonce: &[u8; 24], ciphertext: &[u8], aad: &[u8]) -> (result: Result<Vec<u8>, chacha20poly1305::Error>)
    ensures
        match result {
            Ok(plaintext) => xchacha_open(key@, nonce@, ciphertext@, aad@) == Some(plaintext@)
                && ciphertext@.len() == plaintext@.len() + AEAD_TAG_LEN,
            Err(_) => xchacha_open(key@, nonce@, ciphertext@, aad@) is None,
        },
{
    XChaCha20Poly1305::new(key.into()).decrypt(XNonce::from_slice(nonce), Payload { msg: ciphertext, aad })
}

} // verus!
