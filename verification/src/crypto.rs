use std::collections::VecDeque;
use vstd::prelude::*;
use vstd::utf8::encode_utf8;

use crate::aead::{aead_len_limit, xchacha_open, xchacha_seal, AEAD_TAG_LEN};
use crate::bytes::{append_bytes, copy_range};
use crate::digest::{blake3_hash, blake3_keyed_hash, hash, keyed_hash};
use crate::entropy::fill_random;
use crate::wipe::{wipe_array, wipe_bytes};

verus! {

broadcast use {vstd::seq_lib::group_seq_properties, vstd::seq::group_seq_axioms};

/// Version byte that opens both the wire envelope and the inner packet.
pub const WIRE_VERSION: u8 = 1;
/// Length of an XChaCha20-Poly1305 nonce.
pub const NONCE_LEN: usize = 24;
/// Largest wire envelope accepted or produced.
pub const MAX_WIRE_BYTES: usize = 1024 * 1024;
/// Replay window of `ReplayGuard::default()`.
pub const DEFAULT_REPLAY_WINDOW: usize = 4096;

/// Shortest inner packet or wire envelope: version byte, nonce and tag.
pub open spec fn min_envelope_len() -> nat {
    (1 + NONCE_LEN + AEAD_TAG_LEN) as nat
}

/// Label under which the inner-layer key is derived from a `MessageSecret`.
pub open spec fn inner_key_label() -> Seq<u8> {
    encode_utf8("sigil-inner-aead-v1"@)
}

/// Label under which the outer-layer key is derived from a `TransportSecret`.
pub open spec fn outer_key_label() -> Seq<u8> {
    encode_utf8("sigil-outer-aead-v1"@)
}

/// Secret that keys the inner (message) layer and the symbol map.
pub struct MessageSecret([u8; 32]);

impl View for MessageSecret {
    type V = Seq<u8>;

    closed spec fn view(&self) -> Seq<u8> {
        self.0@
    }
}

impl MessageSecret {
    /// A fresh secret of 32 random bytes.
    pub fn random() -> (secret: Self)
        ensures
            secret@.len() == 32,
    {
        let mut bytes = [0u8; 32];
        fill_random(&mut bytes);
        MessageSecret(bytes)
    }

    /// A 32-byte subkey for the purpose named by `label`: the BLAKE3 keyed hash
    /// of the label under the secret.
    pub(crate) fn derive_subkey(&self, label: &[u8]) -> (subkey: [u8; 32])
        ensures
            subkey@ == blake3_keyed_hash(self@, label@),
    {
        keyed_hash(&self.0, label)
    }

    /// The redacted debug text: the secret never appears in it.
    pub fn debug_text(&self) -> (text: String)
        ensures
            text@ == "MessageSecret([REDACTED])"@,
    {
        String::from_str("MessageSecret([REDACTED])")
    }
}

impl Drop for MessageSecret {
    /// Wipes the secret bytes.
    fn drop(&mut self)
        opens_invariants none
        no_unwind
    {
        wipe_array(&mut self.0);
    }
}

/// Secret that keys the outer (transport) layer, independent of the message
/// secret.
pub struct TransportSecret([u8; 32]);

impl View for TransportSecret {
    type V = Seq<u8>;

    closed spec fn view(&self) -> Seq<u8> {
        self.0@
    }
}

impl Drop for TransportSecret {
    /// Wipes the secret bytes.
    fn drop(&mut self)
        opens_invariants none
        no_unwind
    {
        wipe_array(&mut self.0);
    }
}

impl TransportSecret {
    /// A fresh secret of 32 random bytes.
    pub fn random() -> (secret: Self)
        ensures
            secret@.len() == 32,
    {
        let mut bytes = [0u8; 32];
        fill_random(&mut bytes);
        TransportSecret(bytes)
    }

    /// A 32-byte subkey: the BLAKE3 keyed hash of `label` under the secret.
    fn derive_subkey(&self, label: &[u8]) -> (subkey: [u8; 32])
        ensures
            subkey@ == blake3_keyed_hash(self@, label@),
    {
        keyed_hash(&self.0, label)
    }

    /// The redacted debug text: the secret never appears in it.
    pub fn debug_text(&self) -> (text: String)
        ensures
            text@ == "TransportSecret([REDACTED])"@,
    {
        String::from_str("TransportSecret([REDACTED])")
    }
}

/// Why sealing, opening or parsing an envelope failed.
#[derive(Debug, Clone, Copy, PartialEq, Eq, Structural)]
pub enum CryptoError {
    AuthenticationFailed,
    InvalidKey,
    MalformedEnvelope,
    EnvelopeTooLarge,
    ReplayDetected,
}

/// The human-readable text of a crypto error.
pub open spec fn crypto_error_text(error: CryptoError) -> Seq<char> {
    match error {
        CryptoError::AuthenticationFailed => "authentication failed"@,
        CryptoError::InvalidKey => "invalid encryption key"@,
        CryptoError::MalformedEnvelope => "malformed layered envelope"@,
        CryptoError::EnvelopeTooLarge => "layered envelope exceeds size limit"@,
        CryptoError::ReplayDetected => "replayed layered envelope rejected"@,
    }
}

impl CryptoError {
    /// The error as text.
    pub fn message(&self) -> (text: String)
        ensures
            text@ == crypto_error_text(*self),
    {
        match self {
            CryptoError::AuthenticationFailed => String::from_str("authentication failed"),
            CryptoError::InvalidKey => String::from_str("invalid encryption key"),
            CryptoError::MalformedEnvelope => String::from_str("malformed layered envelope"),
            CryptoError::EnvelopeTooLarge => String::from_str("layered envelope exceeds size limit"),
            CryptoError::ReplayDetected => String::from_str("replayed layered envelope rejected"),
        }
    }
}

/// The inner-layer key derived from a message secret.
pub open spec fn inner_key(message_secret: Seq<u8>) -> Seq<u8> {
    blake3_keyed_hash(message_secret, inner_key_label())
}

/// The outer-layer key derived from a transport secret.
pub open spec fn outer_key(transport_secret: Seq<u8>) -> Seq<u8> {
    blake3_keyed_hash(transport_secret, outer_key_label())
}

/// An envelope as plain values: (outer nonce, outer ciphertext).
pub type EnvelopeView = (Seq<u8>, Seq<u8>);

/// What every envelope satisfies: a full nonce, a ciphertext at least one tag
/// long, and a wire form within `MAX_WIRE_BYTES`.
pub open spec fn envelope_fits(envelope: EnvelopeView) -> bool {
    &&& envelope.0.len() == NONCE_LEN
    &&& envelope.1.len() >= AEAD_TAG_LEN
    &&& 1 + NONCE_LEN + envelope.1.len() <= MAX_WIRE_BYTES
}

/// The envelope that sealing `symbols` produces with the given secrets,
/// associated data and nonces, or the error it reports: the inner layer
/// encrypts the symbols, the inner packet is the version byte, the inner nonce
/// and the inner ciphertext, and the outer layer encrypts that packet.
pub open spec fn sealed_with(
    symbols: Seq<u8>,
    message_secret: Seq<u8>,
    transport_secret: Seq<u8>,
    application_aad: Seq<u8>,
    transport_aad: Seq<u8>,
    inner_nonce: Seq<u8>,
    outer_nonce: Seq<u8>,
) -> Result<EnvelopeView, CryptoError> {
    if symbols.len() >= aead_len_limit() {
        Err(CryptoError::AuthenticationFailed)
    } else {
        let inner_ciphertext = xchacha_seal(inner_key(message_secret), inner_nonce, symbols, application_aad);
        let packet = seq![WIRE_VERSION] + inner_nonce + inner_ciphertext;
        if packet.len() >= aead_len_limit() {
            Err(CryptoError::AuthenticationFailed)
        } else {
            let outer_ciphertext = xchacha_seal(outer_key(transport_secret), outer_nonce, packet, transport_aad);
            if 1 + NONCE_LEN + outer_ciphertext.len() > MAX_WIRE_BYTES {
                Err(CryptoError::EnvelopeTooLarge)
            } else {
                Ok((outer_nonce, outer_ciphertext))
            }
        }
    }
}

/// What opening `envelope` returns: the outer layer must authenticate, the
/// inner packet must be long enough and carry the version byte, and the inner
/// layer must authenticate.
pub open spec fn opened(
    envelope: EnvelopeView,
    message_secret: Seq<u8>,
    transport_secret: Seq<u8>,
    application_aad: Seq<u8>,
    transport_aad: Seq<u8>,
) -> Result<Seq<u8>, CryptoError> {
    match xchacha_open(outer_key(transport_secret), envelope.0, envelope.1, transport_aad) {
        None => Err(CryptoError::AuthenticationFailed),
        Some(packet) => if packet.len() < min_envelope_len() || packet[0] != WIRE_VERSION {
            Err(CryptoError::MalformedEnvelope)
        } else {
            match xchacha_open(
                inner_key(message_secret),
                packet.subrange(1, 1 + NONCE_LEN),
                packet.subrange(1 + NONCE_LEN, packet.len() as int),
                application_aad,
            ) {
                None => Err(CryptoError::AuthenticationFailed),
                Some(symbols) => Ok(symbols),
            }
        },
    }
}

/// The wire form of an envelope: version byte, outer nonce, outer ciphertext.
pub open spec fn wire_bytes(envelope: EnvelopeView) -> Seq<u8> {
    seq![WIRE_VERSION] + envelope.0 + envelope.1
}

/// What parsing `wire` returns: too large, malformed (too short or a wrong
/// version byte), or the nonce and ciphertext it carries.
pub open spec fn parsed_wire(wire: Seq<u8>) -> Result<EnvelopeView, CryptoError> {
    if wire.len() > MAX_WIRE_BYTES {
        Err(CryptoError::EnvelopeTooLarge)
    } else if wire.len() < min_envelope_len() || wire[0] != WIRE_VERSION {
        Err(CryptoError::MalformedEnvelope)
    } else {
        Ok((wire.subrange(1, 1 + NONCE_LEN), wire.subrange(1 + NONCE_LEN, wire.len() as int)))
    }
}

/// The two-layer authenticated envelope as it travels: the outer nonce and the
/// outer ciphertext. The inner nonce is only visible after the outer layer
/// authenticates.
#[derive(Debug, PartialEq, Eq)]
pub struct LayeredEnvelope {
    outer_nonce: [u8; NONCE_LEN],
    outer_ciphertext: Vec<u8>,
}

impl View for LayeredEnvelope {
    type V = EnvelopeView;

    closed spec fn view(&self) -> EnvelopeView {
        (self.outer_nonce@, self.outer_ciphertext@)
    }
}

/// The plain value of an envelope result.
pub open spec fn envelope_result(result: Result<LayeredEnvelope, CryptoError>) -> Result<EnvelopeView, CryptoError> {
    match result {
        Ok(envelope) => Ok(envelope@),
        Err(e) => Err(e),
    }
}

/// The plain value of a byte result.
pub open spec fn bytes_result(result: Result<Vec<u8>, CryptoError>) -> Result<Seq<u8>, CryptoError> {
    match result {
        Ok(bytes) => Ok(bytes@),
        Err(e) => Err(e),
    }
}

impl Clone for LayeredEnvelope {
    /// A copy of the envelope.
    fn clone(&self) -> (copy: Self)
        ensures
            copy@ == self@,
    {
        proof {
            use_type_invariant(self);
        }
        LayeredEnvelope { outer_nonce: self.outer_nonce, outer_ciphertext: copy_range(self.outer_ciphertext.as_slice(), 0, self.outer_ciphertext.len()) }
    }
}

impl LayeredEnvelope {
    #[verifier::type_invariant]
    spec fn fits(self) -> bool {
        envelope_fits(self@)
    }

    /// Seals `symbol_stream` under fresh random inner and outer nonces; see
    /// `seal_with_nonces`. Whatever nonces were drawn, the envelope opens with
    /// the same secrets and associated data to the same symbol stream.
    pub fn seal(
        symbol_stream: &[u8],
        message_secret: &MessageSecret,
        transport_secret: &TransportSecret,
        application_aad: &[u8],
        transport_aad: &[u8],
    ) -> (result: Result<Self, CryptoError>)
        ensures
            exists|inner_nonce: Seq<u8>, outer_nonce: Seq<u8>|
                inner_nonce.len() == NONCE_LEN && outer_nonce.len() == NONCE_LEN
                && envelope_result(result) == sealed_with(
                    symbol_stream@, message_secret@, transport_secret@, application_aad@, transport_aad@,
                    inner_nonce, outer_nonce,
                ),
            result matches Ok(envelope) ==> opened(
                envelope@, message_secret@, transport_secret@, application_aad@, transport_aad@,
            ) == Ok::<Seq<u8>, CryptoError>(symbol_stream@),
            result is Ok <==> symbol_stream@.len() + 2 * min_envelope_len() <= MAX_WIRE_BYTES,
            result matches Ok(envelope) ==> wire_bytes(envelope@).len() == symbol_stream@.len() + 2
                * min_envelope_len(),
            symbol_stream@.len() + min_envelope_len() < aead_len_limit() && symbol_stream@.len() + 2
                * min_envelope_len() > MAX_WIRE_BYTES ==> result == Err::<Self, CryptoError>(
                CryptoError::EnvelopeTooLarge,
            ),
            symbol_stream@.len() + min_envelope_len() >= aead_len_limit() ==> result == Err::<Self, CryptoError>(
                CryptoError::AuthenticationFailed,
            ),
    {
        let mut inner_nonce = [0u8; NONCE_LEN];
        let mut outer_nonce = [0u8; NONCE_LEN];
        fill_random(&mut inner_nonce);
        fill_random(&mut outer_nonce);
        let result = Self::seal_with_nonces(
            symbol_stream, message_secret, transport_secret, application_aad, transport_aad,
            inner_nonce, outer_nonce,
        );
        wipe_array(&mut inner_nonce);
        result
    }

    /// Seals `symbol_stream` with the given nonces. The inner layer encrypts it
    /// under a key derived from the message secret, binding the application
    /// associated data; the outer layer encrypts the inner packet (version
    /// byte, inner nonce, inner ciphertext) under a key derived from the
    /// transport secret, binding the transport associated data. An envelope
    /// whose wire form would exceed `MAX_WIRE_BYTES` is refused. A nonce must
    /// never be used twice with the same secret.
    pub fn seal_with_nonces(
        symbol_stream: &[u8],
        message_secret: &MessageSecret,
        transport_secret: &TransportSecret,
        application_aad: &[u8],
        transport_aad: &[u8],
        inner_nonce: [u8; NONCE_LEN],
        outer_nonce: [u8; NONCE_LEN],
    ) -> (result: Result<Self, CryptoError>)
        ensures
            envelope_result(result) == sealed_with(
                symbol_stream@, message_secret@, transport_secret@, application_aad@, transport_aad@,
                inner_nonce@, outer_nonce@,
            ),
            result matches Ok(envelope) ==> opened(
                envelope@, message_secret@, transport_secret@, application_aad@, transport_aad@,
            ) == Ok::<Seq<u8>, CryptoError>(symbol_stream@),
            result is Ok <==> symbol_stream@.len() + 2 * min_envelope_len() <= MAX_WIRE_BYTES,
            result matches Ok(envelope) ==> wire_bytes(envelope@).len() == symbol_stream@.len() + 2
                * min_envelope_len(),
            symbol_stream@.len() + min_envelope_len() < aead_len_limit() && symbol_stream@.len() + 2
                * min_envelope_len() > MAX_WIRE_BYTES ==> result == Err::<Self, CryptoError>(
                CryptoError::EnvelopeTooLarge,
            ),
            symbol_stream@.len() + min_envelope_len() >= aead_len_limit() ==> result == Err::<Self, CryptoError>(
                CryptoError::AuthenticationFailed,
            ),
    {
        let mut inner_nonce = inner_nonce;
        let ghost inner_nonce_view = inner_nonce@;
        let mut inner_key = message_secret.derive_subkey("sigil-inner-aead-v1".as_bytes());
        let mut outer_key = transport_secret.derive_subkey("sigil-outer-aead-v1".as_bytes());
        let inner_ciphertext = match crate::aead::seal(&inner_key, &inner_nonce, symbol_stream, application_aad) {
            Ok(ciphertext) => ciphertext,
            Err(_) => {
                wipe_array(&mut inner_key);
                wipe_array(&mut outer_key);
                return Err(CryptoError::AuthenticationFailed);
            },
        };
        let mut packet: Vec<u8> = Vec::new();
        packet.push(WIRE_VERSION);
        append_bytes(&mut packet, &inner_nonce);
        append_bytes(&mut packet, inner_ciphertext.as_slice());
        let ghost packet_view = packet@;
        assert(packet_view == seq![WIRE_VERSION] + inner_nonce_view + inner_ciphertext@);
        let outer_ciphertext = match crate::aead::seal(&outer_key, &outer_nonce, packet.as_slice(), transport_aad) {
            Ok(ciphertext) => ciphertext,
            Err(_) => {
                wipe_array(&mut inner_key);
                wipe_array(&mut outer_key);
                wipe_bytes(&mut packet);
                return Err(CryptoError::AuthenticationFailed);
            },
        };
        wipe_array(&mut inner_nonce);
        wipe_bytes(&mut packet);
        wipe_array(&mut inner_key);
        wipe_array(&mut outer_key);
        if outer_ciphertext.len() > MAX_WIRE_BYTES - 1 - NONCE_LEN {
            return Err(CryptoError::EnvelopeTooLarge);
        }
        let envelope = LayeredEnvelope { outer_nonce, outer_ciphertext };
        proof {
            assert(packet_view.subrange(1, 1 + NONCE_LEN) =~= inner_nonce_view);
            assert(packet_view.subrange(1 + NONCE_LEN, packet_view.len() as int) =~= inner_ciphertext@);
        }
        Ok(envelope)
    }

    /// Opens both layers: the outer layer must authenticate under the transport
    /// secret and transport associated data, the inner packet must be well
    /// formed, and the inner layer must authenticate under the message secret
    /// and application associated data. Nothing of the inner packet is exposed
    /// unless both layers authenticate.
    pub fn open(
        &self,
        message_secret: &MessageSecret,
        transport_secret: &TransportSecret,
        application_aad: &[u8],
        transport_aad: &[u8],
    ) -> (result: Result<Vec<u8>, CryptoError>)
        ensures
            bytes_result(result) == opened(
                self@, message_secret@, transport_secret@, application_aad@, transport_aad@,
            ),
    {
        let mut inner_key = message_secret.derive_subkey("sigil-inner-aead-v1".as_bytes());
        let mut outer_key = transport_secret.derive_subkey("sigil-outer-aead-v1".as_bytes());
        let mut packet = match crate::aead::open(
            &outer_key, &self.outer_nonce, self.outer_ciphertext.as_slice(), transport_aad,
        ) {
            Ok(packet) => packet,
            Err(_) => {
                wipe_array(&mut inner_key);
                wipe_array(&mut outer_key);
                return Err(CryptoError::AuthenticationFailed);
            },
        };
        let ghost packet_view = packet@;
        if packet.len() < 1 + NONCE_LEN + AEAD_TAG_LEN || packet[0] != WIRE_VERSION {
            wipe_bytes(&mut packet);
            wipe_array(&mut inner_key);
            wipe_array(&mut outer_key);
            return Err(CryptoError::MalformedEnvelope);
        }
        let mut inner_nonce = [0u8; NONCE_LEN];
        let mut i: usize = 0;
        while i < NONCE_LEN
            invariant
                i <= NONCE_LEN,
                packet@ == packet_view,
                packet_view.len() >= 1 + NONCE_LEN,
                forall|k: int| 0 <= k < i ==> inner_nonce@[k] == packet_view[1 + k],
            decreases NONCE_LEN - i,
        {
            inner_nonce[i] = packet[1 + i];
            i = i + 1;
        }
        assert(inner_nonce@ =~= packet_view.subrange(1, 1 + NONCE_LEN));
        let inner_ciphertext = vstd::slice::slice_subrange(packet.as_slice(), 1 + NONCE_LEN, packet.len());
        let result = match crate::aead::open(&inner_key, &inner_nonce, inner_ciphertext, application_aad) {
            Ok(symbols) => Ok(symbols),
            Err(_) => Err(CryptoError::AuthenticationFailed),
        };
        wipe_array(&mut inner_nonce);
        wipe_bytes(&mut packet);
        wipe_array(&mut inner_key);
        wipe_array(&mut outer_key);
        result
    }

    /// The wire form: version byte, outer nonce, outer ciphertext.
    pub fn to_wire_bytes(&self) -> (wire: Vec<u8>)
        ensures
            wire@ == wire_bytes(self@),
            envelope_fits(self@),
    {
        proof {
            use_type_invariant(self);
        }
        let mut wire: Vec<u8> = Vec::with_capacity(1 + NONCE_LEN + self.outer_ciphertext.len());
        wire.push(WIRE_VERSION);
        append_bytes(&mut wire, &self.outer_nonce);
        append_bytes(&mut wire, self.outer_ciphertext.as_slice());
        wire
    }

    /// Parses a wire envelope, rejecting one over `MAX_WIRE_BYTES` before
    /// looking at it, and one too short for a version byte, a nonce and a tag
    /// or with the wrong version byte.
    pub fn from_wire_bytes(wire: &[u8]) -> (result: Result<Self, CryptoError>)
        ensures
            envelope_result(result) == parsed_wire(wire@),
    {
        if wire.len() > MAX_WIRE_BYTES {
            return Err(CryptoError::EnvelopeTooLarge);
        }
        if wire.len() < 1 + NONCE_LEN + AEAD_TAG_LEN || wire[0] != WIRE_VERSION {
            return Err(CryptoError::MalformedEnvelope);
        }
        let mut outer_nonce = [0u8; NONCE_LEN];
        let mut i: usize = 0;
        while i < NONCE_LEN
            invariant
                i <= NONCE_LEN,
                wire@.len() >= 1 + NONCE_LEN,
                forall|k: int| 0 <= k < i ==> outer_nonce@[k] == wire@[1 + k],
            decreases NONCE_LEN - i,
        {
            outer_nonce[i] = wire[1 + i];
            i = i + 1;
        }
        assert(outer_nonce@ =~= wire@.subrange(1, 1 + NONCE_LEN));
        let outer_ciphertext = copy_range(wire, 1 + NONCE_LEN, wire.len());
        Ok(LayeredEnvelope { outer_nonce, outer_ciphertext })
    }
}

/// Every envelope parses back from its own wire form.
pub proof fn lemma_wire_roundtrip(envelope: EnvelopeView)
    requires
        envelope_fits(envelope),
    ensures
        parsed_wire(wire_bytes(envelope)) == Ok::<EnvelopeView, CryptoError>(envelope),
{
    let wire = wire_bytes(envelope);
    assert(wire.subrange(1, 1 + NONCE_LEN) =~= envelope.0);
    assert(wire.subrange(1 + NONCE_LEN, wire.len() as int) =~= envelope.1);
}

/// Whatever parses from a wire object fits the envelope limits and has exactly
/// that wire form.
pub proof fn lemma_parse_reproduces_wire(wire: Seq<u8>)
    requires
        parsed_wire(wire) is Ok,
    ensures
        envelope_fits(parsed_wire(wire)->Ok_0),
        wire_bytes(parsed_wire(wire)->Ok_0) == wire,
{
    let envelope = parsed_wire(wire)->Ok_0;
    assert(wire_bytes(envelope) =~= wire);
}

/// The replay window after `digest` is recorded: appended as the newest entry,
/// with the oldest entries dropped beyond `capacity`.
pub open spec fn window_after(window: Seq<Seq<u8>>, digest: Seq<u8>, capacity: nat) -> Seq<Seq<u8>> {
    let grown = window.push(digest);
    if grown.len() > capacity {
        grown.skip(grown.len() - capacity)
    } else {
        grown
    }
}

/// A replay guard as plain values: (capacity, recorded digests oldest first).
pub type ReplayGuardView = (nat, Seq<Seq<u8>>);

/// What every replay guard satisfies: room for at least one entry, no more
/// entries than that, each a 32-byte digest recorded once.
pub open spec fn replay_guard_ok(guard: ReplayGuardView) -> bool {
    &&& guard.0 >= 1
    &&& guard.1.len() <= guard.0
    &&& guard.1.no_duplicates()
    &&& forall|i: int| 0 <= i < guard.1.len() ==> #[trigger] guard.1[i].len() == 32
}

/// What `open_once` returns and the guard it leaves: an envelope whose wire
/// digest is already recorded is a replay and is not opened; otherwise the
/// envelope is opened, and only a successful opening records its digest.
pub open spec fn opened_once(
    guard: ReplayGuardView,
    envelope: EnvelopeView,
    message_secret: Seq<u8>,
    transport_secret: Seq<u8>,
    application_aad: Seq<u8>,
    transport_aad: Seq<u8>,
) -> (Result<Seq<u8>, CryptoError>, ReplayGuardView) {
    let digest = blake3_hash(wire_bytes(envelope));
    if guard.1.contains(digest) {
        (Err(CryptoError::ReplayDetected), guard)
    } else {
        match opened(envelope, message_secret, transport_secret, application_aad, transport_aad) {
            Err(e) => (Err(e), guard),
            Ok(symbols) => (Ok(symbols), (guard.0, window_after(guard.1, digest, guard.0))),
        }
    }
}

/// A bounded in-memory record of the wire digests of envelopes that opened
/// successfully, used to reject exact replays. The digests are kept oldest
/// first in a `VecDeque`, each once; membership is a scan of that window,
/// which holds at most `capacity` digests.
#[derive(Debug)]
pub struct ReplayGuard {
    capacity: usize,
    order: VecDeque<[u8; 32]>,
}

impl View for ReplayGuard {
    type V = ReplayGuardView;

    closed spec fn view(&self) -> ReplayGuardView {
        (self.capacity as nat, self.order@.map_values(|digest: [u8; 32]| digest@))
    }
}

impl Default for ReplayGuard {
    /// A guard with the default window of `DEFAULT_REPLAY_WINDOW` digests.
    fn default() -> (guard: Self)
        ensures
            guard@ == (DEFAULT_REPLAY_WINDOW as nat, Seq::<Seq<u8>>::empty()),
    {
        Self::new(DEFAULT_REPLAY_WINDOW)
    }
}

impl ReplayGuard {
    #[verifier::type_invariant]
    spec fn is_ok(self) -> bool {
        replay_guard_ok(self@)
    }

    /// An empty guard remembering up to `capacity` digests (at least one).
    pub fn new(capacity: usize) -> (guard: Self)
        ensures
            guard@ == (if capacity >= 1 { capacity as nat } else { 1nat }, Seq::<Seq<u8>>::empty()),
    {
        let guard = ReplayGuard { capacity: if capacity >= 1 { capacity } else { 1 }, order: VecDeque::new() };
        assert(guard@.1 =~= Seq::<Seq<u8>>::empty());
        guard
    }

    /// Whether `digest` is recorded.
    fn records(&self, digest: &[u8; 32]) -> (recorded: bool)
        ensures
            recorded == self@.1.contains(digest@),
    {
        let ghost window = self@.1;
        let mut i: usize = 0;
        while i < self.order.len()
            invariant
                window == self@.1,
                window.len() == self.order@.len(),
                i <= self.order@.len(),
                forall|j: int| 0 <= j < i ==> window[j] != digest@,
            decreases self.order@.len() - i,
        {
            if crate::bytes::bytes_equal(&self.order[i], digest) {
                assert(window[i as int] == digest@);
                return true;
            }
            i = i + 1;
        }
        false
    }

    /// Opens `envelope` unless its exact wire form was already opened within the
    /// window. The wire digest is recorded only after both layers
    /// authenticate, so a failed attempt does not poison the guard; the oldest
    /// digests leave the window once it is full.
    pub fn open_once(
        &mut self,
        envelope: &LayeredEnvelope,
        message_secret: &MessageSecret,
        transport_secret: &TransportSecret,
        application_aad: &[u8],
        transport_aad: &[u8],
    ) -> (result: Result<Vec<u8>, CryptoError>)
        ensures
            (bytes_result(result), final(self)@) == opened_once(
                old(self)@, envelope@, message_secret@, transport_secret@, application_aad@, transport_aad@,
            ),
    {
        proof {
            use_type_invariant(&*self);
        }
        let wire = envelope.to_wire_bytes();
        let digest = hash(wire.as_slice());
        if self.records(&digest) {
            return Err(CryptoError::ReplayDetected);
        }
        let opened = match envelope.open(message_secret, transport_secret, application_aad, transport_aad) {
            Ok(symbols) => symbols,
            Err(e) => {
                return Err(e);
            },
        };
        let ghost window = self@.1;
        let capacity = self.capacity;
        let mut order: VecDeque<[u8; 32]> = VecDeque::new();
        std::mem::swap(&mut order, &mut self.order);
        assert(order@.map_values(|d: [u8; 32]| d@) == window);
        order.push_back(digest);
        assert(order@.map_values(|d: [u8; 32]| d@) =~= window.push(digest@));
        let ghost grown = window.push(digest@);
        if order.len() > capacity {
            let _expired = order.pop_front();
            assert(order@.map_values(|d: [u8; 32]| d@) =~= grown.skip(grown.len() - capacity));
        }
        proof {
            let next = window_after(window, digest@, capacity as nat);
            assert(next.no_duplicates()) by {
                assert forall|a: int, b: int| 0 <= a < b < next.len() implies next[a] != next[b] by {
                    if grown.len() > capacity {
                        assert(next[a] == grown[a + 1] && next[b] == grown[b + 1]);
                    }
                }
            }
        }
        self.order = order;
        Ok(opened)
    }
}

/// An envelope that was just accepted is rejected as a replay when it comes
/// again, whatever secrets and associated data come with it.
pub proof fn lemma_accepted_envelope_is_replay(
    guard: ReplayGuardView,
    envelope: EnvelopeView,
    message_secret: Seq<u8>,
    transport_secret: Seq<u8>,
    application_aad: Seq<u8>,
    transport_aad: Seq<u8>,
    again_message_secret: Seq<u8>,
    again_transport_secret: Seq<u8>,
    again_application_aad: Seq<u8>,
    again_transport_aad: Seq<u8>,
)
    requires
        replay_guard_ok(guard),
        opened_once(guard, envelope, message_secret, transport_secret, application_aad, transport_aad).0 is Ok,
    ensures
        ({
            let after = opened_once(guard, envelope, message_secret, transport_secret, application_aad, transport_aad).1;
            opened_once(after, envelope, again_message_secret, again_transport_secret, again_application_aad, again_transport_aad)
                == (Err::<Seq<u8>, CryptoError>(CryptoError::ReplayDetected), after)
        }),
{
    let digest = blake3_hash(wire_bytes(envelope));
    let after = window_after(guard.1, digest, guard.0);
    let grown = guard.1.push(digest);
    assert(after[after.len() - 1] == digest);
}

/// An envelope that fails to open (or is a replay) leaves the guard as it was.
pub proof fn lemma_failure_keeps_guard(
    guard: ReplayGuardView,
    envelope: EnvelopeView,
    message_secret: Seq<u8>,
    transport_secret: Seq<u8>,
    application_aad: Seq<u8>,
    transport_aad: Seq<u8>,
)
    requires
        opened_once(guard, envelope, message_secret, transport_secret, application_aad, transport_aad).0 is Err,
    ensures
        opened_once(guard, envelope, message_secret, transport_secret, application_aad, transport_aad).1 == guard,
{
}

/// The guard never remembers more than its capacity, and an accepted envelope
/// on a full guard pushes out exactly the oldest digest.
pub proof fn lemma_window_is_bounded(
    guard: ReplayGuardView,
    envelope: EnvelopeView,
    message_secret: Seq<u8>,
    transport_secret: Seq<u8>,
    application_aad: Seq<u8>,
    transport_aad: Seq<u8>,
)
    requires
        replay_guard_ok(guard),
    ensures
        ({
            let (result, after) = opened_once(guard, envelope, message_secret, transport_secret, application_aad, transport_aad);
            &&& after.0 == guard.0
            &&& after.1.len() <= guard.0
            &&& (result is Ok && guard.1.len() == guard.0) ==> after.1 == guard.1.drop_first().push(
                blake3_hash(wire_bytes(envelope)),
            )
        }),
{
    let digest = blake3_hash(wire_bytes(envelope));
    let grown = guard.1.push(digest);
    if guard.1.len() == guard.0 {
        assert(grown.skip(grown.len() - guard.0) =~= guard.1.drop_first().push(digest));
    }
}

/// The window after `digests` are recorded one after another.
pub open spec fn windows_after(window: Seq<Seq<u8>>, digests: Seq<Seq<u8>>, capacity: nat) -> Seq<Seq<u8>>
    decreases digests.len(),
{
    if digests.len() == 0 {
        window
    } else {
        window_after(windows_after(window, digests.drop_last(), capacity), digests.last(), capacity)
    }
}

/// The newest `capacity` entries of `entries` (all of them if there are fewer).
pub open spec fn newest(entries: Seq<Seq<u8>>, capacity: nat) -> Seq<Seq<u8>> {
    if entries.len() > capacity {
        entries.skip(entries.len() - capacity)
    } else {
        entries
    }
}

/// Recording digests one after another keeps exactly the newest `capacity`
/// of everything recorded.
proof fn lemma_windows_keep_newest(window: Seq<Seq<u8>>, digests: Seq<Seq<u8>>, capacity: nat)
    requires
        window.len() <= capacity,
    ensures
        windows_after(window, digests, capacity) == newest(window + digests, capacity),
    decreases digests.len(),
{
    if digests.len() > 0 {
        lemma_windows_keep_newest(window, digests.drop_last(), capacity);
        let before = window + digests.drop_last();
        assert(window + digests =~= before.push(digests.last()));
        let kept = newest(before, capacity);
        let grown = kept.push(digests.last());
        let all = before.push(digests.last());
        if grown.len() > capacity {
            assert(grown.skip(grown.len() - capacity) =~= newest(all, capacity));
        } else {
            assert(grown =~= newest(all, capacity));
        }
    }
}

/// The replay window over time. Once an envelope has been accepted, it stays
/// a replay (refused before any authentication, whatever secrets and
/// associated data come with it) while fewer than `capacity` other digests
/// are recorded after it; once `capacity` of them have been recorded its
/// digest has been pushed out, and it is opened as a fresh envelope.
pub proof fn lemma_replay_window_over_time(
    guard: ReplayGuardView,
    envelope: EnvelopeView,
    message_secret: Seq<u8>,
    transport_secret: Seq<u8>,
    application_aad: Seq<u8>,
    transport_aad: Seq<u8>,
    later: Seq<Seq<u8>>,
    again_message_secret: Seq<u8>,
    again_transport_secret: Seq<u8>,
    again_application_aad: Seq<u8>,
    again_transport_aad: Seq<u8>,
)
    requires
        replay_guard_ok(guard),
        opened_once(guard, envelope, message_secret, transport_secret, application_aad, transport_aad).0 is Ok,
        forall|i: int| 0 <= i < later.len() ==> #[trigger] later[i] != blake3_hash(wire_bytes(envelope)),
    ensures
        ({
            let accepted = opened_once(guard, envelope, message_secret, transport_secret, application_aad, transport_aad).1;
            let current = (accepted.0, windows_after(accepted.1, later, accepted.0));
            let again = opened_once(
                current,
                envelope,
                again_message_secret,
                again_transport_secret,
                again_application_aad,
                again_transport_aad,
            );
            &&& later.len() < guard.0 ==> again == (Err::<Seq<u8>, CryptoError>(CryptoError::ReplayDetected), current)
            &&& later.len() >= guard.0 ==> again.0 == opened(
                envelope,
                again_message_secret,
                again_transport_secret,
                again_application_aad,
                again_transport_aad,
            )
        }),
{
    lemma_digest_kept(guard.1, blake3_hash(wire_bytes(envelope)), later, guard.0);
}

/// A digest recorded and then followed by `later` (none of them equal to it)
/// is still in the window exactly while fewer than `capacity` followed it.
proof fn lemma_digest_kept(window: Seq<Seq<u8>>, digest: Seq<u8>, later: Seq<Seq<u8>>, capacity: nat)
    requires
        capacity >= 1,
        window.len() <= capacity,
        forall|i: int| 0 <= i < later.len() ==> #[trigger] later[i] != digest,
    ensures
        windows_after(window_after(window, digest, capacity), later, capacity).contains(digest) <==> later.len()
            < capacity,
{
    let cap = capacity;
    lemma_windows_of_first(window, digest, later, cap);
    lemma_windows_keep_newest(window, seq![digest] + later, cap);
    let full = window + (seq![digest] + later);
    let result = windows_after(window_after(window, digest, cap), later, cap);
    assert(result == newest(full, cap));
    let start: int = if full.len() > cap { full.len() - cap } else { 0 };
    assert(result =~= full.skip(start));
    assert(full[window.len() as int] == digest);
    if later.len() < cap {
        assert(result[window.len() - start] == digest);
    } else {
        assert(!result.contains(digest)) by {
            if result.contains(digest) {
                let i = choose|i: int| 0 <= i < result.len() && result[i] == digest;
                assert(full[start + i] == digest);
                assert(later[start + i - window.len() - 1] == full[start + i]);
            }
        }
    }
}

/// Recording one digest and then `later` is recording `digest` followed by
/// `later`.
proof fn lemma_windows_of_first(window: Seq<Seq<u8>>, digest: Seq<u8>, later: Seq<Seq<u8>>, capacity: nat)
    ensures
        windows_after(window_after(window, digest, capacity), later, capacity) == windows_after(
            window,
            seq![digest] + later,
            capacity,
        ),
    decreases later.len(),
{
    let both = seq![digest] + later;
    if later.len() == 0 {
        assert(both =~= seq![digest]);
        assert(both.drop_last() =~= Seq::<Seq<u8>>::empty());
        assert(windows_after(window, both.drop_last(), capacity) == window);
        assert(windows_after(window, both, capacity) == window_after(window, digest, capacity));
        assert(windows_after(window_after(window, digest, capacity), later, capacity) == window_after(
            window,
            digest,
            capacity,
        ));
    } else {
        lemma_windows_of_first(window, digest, later.drop_last(), capacity);
        assert(both.drop_last() =~= seq![digest] + later.drop_last());
        assert(both.last() == later.last());
        assert(windows_after(window, both, capacity) == window_after(
            windows_after(window, both.drop_last(), capacity),
            both.last(),
            capacity,
        ));
    }
}

} // verus!
