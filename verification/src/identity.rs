use vstd::prelude::*;
use vstd::utf8::encode_utf8;

use crate::bytes::{append_bytes, bytes_equal};
use crate::digest::{blake3_derive_key, derive_key};
use crate::entropy::fill_random;
use crate::text::{hex_pair, push_hex_pair, upper_digits};

verus! {

broadcast use {vstd::seq_lib::group_seq_properties, vstd::seq::group_seq_axioms};

/// The BLAKE3 key-derivation context of identity fingerprints.
pub open spec fn fingerprint_context() -> Seq<char> {
    "sigil.identity.fingerprint.v1"@
}

/// The fingerprint of an identity key: BLAKE3 key derivation of the key bytes
/// under the fingerprint context.
pub open spec fn fingerprint_of(public_key: Seq<u8>) -> Seq<u8> {
    blake3_derive_key(fingerprint_context(), public_key)
}

/// The label that opens identity-bound application associated data.
pub open spec fn identity_aad_label() -> Seq<u8> {
    encode_utf8("sigil.application.identity-bound.v1"@)
}

/// Identity-bound application associated data: the label, then the sender's
/// fingerprint, then the receiver's.
pub open spec fn identity_bound_aad(sender: Seq<u8>, receiver: Seq<u8>) -> Seq<u8> {
    identity_aad_label() + fingerprint_of(sender) + fingerprint_of(receiver)
}

/// `groups` groups of two bytes of `bytes`, each written as four upper-case hex
/// digits, with `separator` between groups.
pub open spec fn grouped_hex(bytes: Seq<u8>, groups: nat, separator: char) -> Seq<char>
    decreases groups,
{
    if groups == 0 {
        Seq::empty()
    } else {
        let g = groups - 1;
        grouped_hex(bytes, g as nat, separator) + (if g > 0 { seq![separator] } else { Seq::empty() })
            + hex_pair(upper_digits(), bytes[2 * g]) + hex_pair(upper_digits(), bytes[2 * g + 1])
    }
}

/// `groups` groups take five characters each, less one separator.
pub proof fn lemma_grouped_hex_len(bytes: Seq<u8>, groups: nat, separator: char)
    requires
        groups > 0,
    ensures
        grouped_hex(bytes, groups, separator).len() == 5 * groups - 1,
    decreases groups,
{
    let g = (groups - 1) as nat;
    assert(hex_pair(upper_digits(), bytes[2 * g as int]).len() == 2);
    assert(hex_pair(upper_digits(), bytes[2 * g as int + 1]).len() == 2);
    if groups > 1 {
        lemma_grouped_hex_len(bytes, g, separator);
    } else {
        assert(grouped_hex(bytes, 0, separator).len() == 0);
    }
}

/// Appends `groups` groups of `bytes` as grouped hex.
fn push_grouped_hex(out: &mut String, bytes: &[u8], groups: usize, separator: &str)
    requires
        2 * groups <= bytes@.len(),
        separator@.len() == 1,
    ensures
        final(out)@ == old(out)@ + grouped_hex(bytes@, groups as nat, separator@[0]),
{
    let len = bytes.len();
    let mut g: usize = 0;
    while g < groups
        invariant
            len == bytes@.len(),
            g <= groups,
            2 * groups <= bytes@.len(),
            separator@.len() == 1,
            out@ == old(out)@ + grouped_hex(bytes@, g as nat, separator@[0]),
        decreases groups - g,
    {
        assert(2 * g + 1 < bytes@.len());
        if g > 0 {
            out.append(separator);
            assert(separator@ =~= seq![separator@[0]]);
        }
        push_hex_pair(out, bytes[2 * g], true);
        push_hex_pair(out, bytes[2 * g + 1], true);
        g = g + 1;
        assert(out@ =~= old(out)@ + grouped_hex(bytes@, g as nat, separator@[0]));
    }
}

/// A peer's public identity key.
#[derive(Debug, Clone, Copy, PartialEq, Eq, Hash)]
pub struct IdentityPublicKey([u8; 32]);

impl View for IdentityPublicKey {
    type V = Seq<u8>;

    closed spec fn view(&self) -> Seq<u8> {
        self.0@
    }
}

impl IdentityPublicKey {
    /// The key with these bytes.
    pub fn new(bytes: [u8; 32]) -> (key: Self)
        ensures
            key@ == bytes@,
    {
        IdentityPublicKey(bytes)
    }

    /// The key's bytes.
    pub fn as_bytes(&self) -> (bytes: &[u8; 32])
        ensures
            bytes@ == self@,
    {
        &self.0
    }

    /// The key's fingerprint, for out-of-band comparison.
    pub fn fingerprint(&self) -> (fingerprint: IdentityFingerprint)
        ensures
            fingerprint@ == fingerprint_of(self@),
            fingerprint@.len() == 32,
    {
        IdentityFingerprint(derive_key("sigil.identity.fingerprint.v1", &self.0))
    }

    /// Whether two keys have the same bytes.
    fn same_key(&self, other: &IdentityPublicKey) -> (same: bool)
        ensures
            same == (self@ == other@),
    {
        bytes_equal(&self.0, &other.0)
    }
}

/// A 256-bit identity fingerprint.
#[derive(Debug, Clone, Copy, PartialEq, Eq, Hash)]
pub struct IdentityFingerprint([u8; 32]);

impl View for IdentityFingerprint {
    type V = Seq<u8>;

    closed spec fn view(&self) -> Seq<u8> {
        self.0@
    }
}

impl IdentityFingerprint {
    /// The fingerprint's bytes.
    pub fn as_bytes(&self) -> (bytes: &[u8; 32])
        ensures
            bytes@ == self@,
    {
        &self.0
    }

    /// The fingerprint as sixteen space-separated groups of four upper-case hex
    /// digits (79 characters).
    pub fn to_grouped_hex(&self) -> (text: String)
        ensures
            text@ == grouped_hex(self@, 16, ' '),
            text@.len() == 79,
    {
        let mut text = String::new();
        proof {
            reveal_strlit(" ");
        }
        push_grouped_hex(&mut text, &self.0, 16, " ");
        assert(text@ =~= grouped_hex(self@, 16, ' '));
        proof {
            lemma_grouped_hex_len(self@, 16, ' ');
        }
        text
    }
}

/// Builds application associated data that binds an envelope to an ordered
/// identity context: a fixed label, the sender's fingerprint and the
/// receiver's fingerprint. This is context binding only: it does not
/// authenticate how either key was obtained, perform a key exchange, or sign
/// anything.
pub fn build_identity_bound_application_aad(sender: &IdentityPublicKey, receiver: &IdentityPublicKey) -> (aad: Vec<u8>)
    ensures
        aad@ == identity_bound_aad(sender@, receiver@),
        aad@.len() == 99,
{
    let label = "sigil.application.identity-bound.v1".as_bytes();
    proof {
        reveal_strlit("sigil.application.identity-bound.v1");
        vstd::utf8::is_ascii_chars_encode_utf8("sigil.application.identity-bound.v1"@);
    }
    let sender_fingerprint = sender.fingerprint();
    let receiver_fingerprint = receiver.fingerprint();
    let mut aad: Vec<u8> = Vec::new();
    append_bytes(&mut aad, label);
    append_bytes(&mut aad, sender_fingerprint.as_bytes());
    append_bytes(&mut aad, receiver_fingerprint.as_bytes());
    aad
}

/// Identity-bound associated data determines both fingerprints in order: two
/// contexts agree exactly when their senders' fingerprints agree and their
/// receivers' fingerprints agree. In particular swapping the roles gives
/// different data unless the two fingerprints are equal.
pub proof fn lemma_identity_aad_is_ordered(sender: Seq<u8>, receiver: Seq<u8>, other_sender: Seq<u8>, other_receiver: Seq<u8>)
    requires
        fingerprint_of(sender).len() == 32,
        fingerprint_of(receiver).len() == 32,
        fingerprint_of(other_sender).len() == 32,
        fingerprint_of(other_receiver).len() == 32,
    ensures
        (identity_bound_aad(sender, receiver) == identity_bound_aad(other_sender, other_receiver)) <==> (
        fingerprint_of(sender) == fingerprint_of(other_sender) && fingerprint_of(receiver) == fingerprint_of(
            other_receiver,
        )),
{
    let a = identity_bound_aad(sender, receiver);
    let b = identity_bound_aad(other_sender, other_receiver);
    let n = identity_aad_label().len() as int;
    if a == b {
        assert(a.subrange(n, n + 32) =~= fingerprint_of(sender));
        assert(b.subrange(n, n + 32) =~= fingerprint_of(other_sender));
        assert(a.subrange(n + 32, n + 64) =~= fingerprint_of(receiver));
        assert(b.subrange(n + 32, n + 64) =~= fingerprint_of(other_receiver));
    }
}

/// A random local presentation alias such as `A73F-19C2-6D04-8BE1`. It is never
/// a proof of identity.
#[derive(Debug, Clone, Copy, PartialEq, Eq, Hash)]
pub struct ContactAlias([u8; 8]);

impl View for ContactAlias {
    type V = Seq<u8>;

    closed spec fn view(&self) -> Seq<u8> {
        self.0@
    }
}

/// How many random draws an alias gets before the fallback: fresh random bytes
/// with the last byte set to 1 or 2. Eight random bytes are all zero or repeat
/// the previous alias only by rare chance.
const RANDOM_DRAWS: usize = 64;

/// Eight zero bytes.
pub open spec fn zero_alias() -> Seq<u8> {
    Seq::new(8, |_i: int| 0u8)
}

/// The alias `base` with its last byte replaced by `last`.
spec fn with_last_byte(base: Seq<u8>, last: u8) -> Seq<u8> {
    base.update(7, last)
}

impl ContactAlias {
    /// A random alias that is not all zeros.
    pub fn random() -> (alias: Self)
        ensures
            alias@.len() == 8,
            alias@ != zero_alias(),
    {
        Self::random_other_than(&ContactAlias([0u8; 8]))
    }

    /// A random alias that is neither all zeros nor `previous`.
    fn random_other_than(previous: &ContactAlias) -> (alias: Self)
        ensures
            alias@.len() == 8,
            alias@ != zero_alias(),
            alias@ != previous@,
    {
        let mut attempt: usize = 0;
        while attempt < RANDOM_DRAWS
            invariant
                attempt <= RANDOM_DRAWS,
            decreases RANDOM_DRAWS - attempt,
        {
            let mut bytes = [0u8; 8];
            fill_random(&mut bytes);
            let zero = [0u8; 8];
            assert(zero@ =~= zero_alias());
            if !bytes_equal(&bytes, &zero) && !bytes_equal(&bytes, &previous.0) {
                return ContactAlias(bytes);
            }
            attempt = attempt + 1;
        }
        let mut base = [0u8; 8];
        fill_random(&mut base);
        let mut first = base;
        first[7] = 1;
        assert(first@ =~= with_last_byte(base@, 1));
        assert(first@[7] != zero_alias()[7]);
        if !bytes_equal(&first, &previous.0) {
            return ContactAlias(first);
        }
        let mut second = base;
        second[7] = 2;
        assert(second@ =~= with_last_byte(base@, 2));
        assert(second@[7] != zero_alias()[7]);
        assert(second@[7] != first@[7]);
        ContactAlias(second)
    }

    /// The alias as four dash-separated groups of four upper-case hex digits
    /// (19 characters).
    pub fn display(&self) -> (text: String)
        ensures
            text@ == grouped_hex(self@, 4, '-'),
            text@.len() == 19,
    {
        let mut text = String::new();
        proof {
            reveal_strlit("-");
        }
        push_grouped_hex(&mut text, &self.0, 4, "-");
        assert(text@ =~= grouped_hex(self@, 4, '-'));
        proof {
            lemma_grouped_hex_len(self@, 4, '-');
        }
        text
    }
}

/// How far a contact's identity key is trusted.
#[derive(Debug, Clone, Copy, PartialEq, Eq, Structural)]
pub enum TrustState {
    Unverified,
    Verified,
    KeyChanged,
}

/// A pseudonymous contact: a local alias, the pinned identity key and the
/// trust decision about that key.
#[derive(Debug, Clone, PartialEq, Eq)]
pub struct ContactRecord {
    alias: ContactAlias,
    identity: IdentityPublicKey,
    trust: TrustState,
}

/// A contact as plain values: (alias, identity key, trust state).
pub type ContactView = (Seq<u8>, Seq<u8>, TrustState);

impl View for ContactRecord {
    type V = ContactView;

    closed spec fn view(&self) -> ContactView {
        (self.alias@, self.identity@, self.trust)
    }
}

impl ContactRecord {
    /// A new unverified contact for `identity` with a random alias.
    pub fn new(identity: IdentityPublicKey) -> (contact: Self)
        ensures
            contact@.1 == identity@,
            contact@.2 == TrustState::Unverified,
            contact@.0.len() == 8 && contact@.0 != zero_alias(),
    {
        ContactRecord { alias: ContactAlias::random(), identity, trust: TrustState::Unverified }
    }

    /// The contact's alias.
    pub fn alias(&self) -> (alias: ContactAlias)
        ensures
            alias@ == self@.0,
    {
        self.alias
    }

    /// The pinned identity key.
    pub fn identity(&self) -> (identity: IdentityPublicKey)
        ensures
            identity@ == self@.1,
    {
        self.identity
    }

    /// The fingerprint of the pinned identity key.
    pub fn fingerprint(&self) -> (fingerprint: IdentityFingerprint)
        ensures
            fingerprint@ == fingerprint_of(self@.1),
            fingerprint@.len() == 32,
    {
        self.identity.fingerprint()
    }

    /// The trust state.
    pub fn trust(&self) -> (trust: TrustState)
        ensures
            trust == self@.2,
    {
        self.trust
    }

    /// Marks the contact verified when the fingerprint compared out of band is
    /// the pinned key's fingerprint; otherwise changes nothing.
    pub fn verify_observed_fingerprint(&mut self, observed: IdentityFingerprint) -> (verified: bool)
        ensures
            verified == (observed@ == fingerprint_of(old(self)@.1)),
            final(self)@ == verification_outcome(old(self)@, observed@),
            !verified ==> final(self)@ == old(self)@,
            verified ==> final(self)@ == (old(self)@.0, old(self)@.1, TrustState::Verified),
    {
        let expected = self.fingerprint();
        if bytes_equal(&observed.0, &expected.0) {
            self.trust = TrustState::Verified;
            true
        } else {
            false
        }
    }

    /// Replaces the alias with a fresh random one that differs from it.
    pub fn rotate_alias(&mut self)
        ensures
            final(self)@.1 == old(self)@.1,
            final(self)@.2 == old(self)@.2,
            final(self)@.0 != old(self)@.0,
            final(self)@.0.len() == 8 && final(self)@.0 != zero_alias(),
    {
        let previous = self.alias;
        self.alias = ContactAlias::random_other_than(&previous);
    }

    /// Pins a different identity key: the old trust decision does not carry
    /// over (the contact becomes `KeyChanged`) and the alias rotates. The same
    /// key changes nothing.
    pub fn replace_identity(&mut self, identity: IdentityPublicKey) -> (replaced: bool)
        ensures
            replaced == (identity@ != old(self)@.1),
            !replaced ==> final(self)@ == old(self)@,
            replaced ==> {
                &&& final(self)@.1 == identity@
                &&& final(self)@.2 == TrustState::KeyChanged
                &&& final(self)@.0 != old(self)@.0
                &&& final(self)@.0.len() == 8 && final(self)@.0 != zero_alias()
            },
    {
        if identity.same_key(&self.identity) {
            return false;
        }
        self.identity = identity;
        self.trust = TrustState::KeyChanged;
        self.rotate_alias();
        true
    }
}

/// What verifying `observed` does to a contact: it becomes `Verified` when
/// `observed` is the pinned key's fingerprint, and is otherwise unchanged.
pub open spec fn verification_outcome(contact: ContactView, observed: Seq<u8>) -> ContactView {
    if observed == fingerprint_of(contact.1) {
        (contact.0, contact.1, TrustState::Verified)
    } else {
        contact
    }
}

/// Trust follows the pinned key. A verification makes a contact `Verified`
/// only if it already was or the observed fingerprint is the pinned key's,
/// and a fingerprint that does not match changes nothing (not even the trust
/// already given).
/// After a key replacement (new key pinned, `KeyChanged`), the previous key's
/// fingerprint leaves the contact `KeyChanged` unless both keys share a
/// fingerprint, while the new key's fingerprint verifies it.
pub proof fn lemma_trust_follows_pinned_key(contact: ContactView, observed: Seq<u8>, previous_key: Seq<u8>)
    ensures
        verification_outcome(contact, observed).2 == TrustState::Verified ==> (observed == fingerprint_of(
            contact.1,
        ) || contact.2 == TrustState::Verified),
        verification_outcome(contact, observed).1 == contact.1,
        verification_outcome(contact, observed).0 == contact.0,
        contact.2 == TrustState::KeyChanged && fingerprint_of(previous_key) != fingerprint_of(contact.1)
            ==> verification_outcome(contact, fingerprint_of(previous_key)).2 == TrustState::KeyChanged,
        verification_outcome(contact, fingerprint_of(contact.1)).2 == TrustState::Verified,
        observed != fingerprint_of(contact.1) ==> verification_outcome(contact, observed) == contact,
{
}

} // verus!
