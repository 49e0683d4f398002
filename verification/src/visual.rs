use vstd::prelude::*;

use crate::digest::{blake3_keyed_hash, keyed_hash};
use crate::entropy::fill_random;
use crate::text::{decimal_list, push_decimal_list};
use crate::wipe::wipe_array;

verus! {

/// A device-local secret that personalises contact markers; it never leaves
/// the device.
pub struct LocalVisualSecret([u8; 32]);

impl View for LocalVisualSecret {
    type V = Seq<u8>;

    closed spec fn view(&self) -> Seq<u8> {
        self.0@
    }
}

impl LocalVisualSecret {
    /// A fresh secret of 32 random bytes.
    pub fn random() -> (secret: Self)
        ensures
            secret@.len() == 32,
    {
        let mut bytes = [0u8; 32];
        fill_random(&mut bytes);
        LocalVisualSecret(bytes)
    }

    /// The secret's bytes.
    fn as_bytes(&self) -> (bytes: &[u8; 32])
        ensures
            bytes@ == self@,
    {
        &self.0
    }

    /// The redacted debug text: the secret never appears in it.
    pub fn debug_text(&self) -> (text: String)
        ensures
            text@ == "LocalVisualSecret([REDACTED])"@,
    {
        String::from_str("LocalVisualSecret([REDACTED])")
    }
}

impl Drop for LocalVisualSecret {
    /// Wipes the secret bytes.
    fn drop(&mut self)
        opens_invariants none
        no_unwind
    {
        wipe_array(&mut self.0);
    }
}

/// A contact's visual marker: a palette, a shape and a pattern slot.
#[derive(Debug, Clone, Copy, PartialEq, Eq, Structural)]
pub struct ContactVisualMarker {
    pub palette_slot: u8,
    pub shape_slot: u8,
    pub pattern_slot: u8,
}

/// The marker of an identity key under a local secret: the first three bytes
/// of the BLAKE3 keyed hash of the key under the secret, reduced to sixteen
/// palettes, eight shapes and eight patterns.
pub open spec fn marker_of(identity_public_key: Seq<u8>, local_secret: Seq<u8>) -> ContactVisualMarker {
    let digest = blake3_keyed_hash(local_secret, identity_public_key);
    ContactVisualMarker {
        palette_slot: (digest[0] % 16) as u8,
        shape_slot: (digest[1] % 8) as u8,
        pattern_slot: (digest[2] % 8) as u8,
    }
}

impl ContactVisualMarker {
    /// The marker of `identity_public_key` under `local_secret`: the same pair
    /// always gives the same marker, and the slots stay in range.
    pub fn derive(identity_public_key: &[u8; 32], local_secret: &LocalVisualSecret) -> (marker: Self)
        ensures
            marker == marker_of(identity_public_key@, local_secret@),
            marker.palette_slot == blake3_keyed_hash(local_secret@, identity_public_key@)[0] % 16,
            marker.shape_slot == blake3_keyed_hash(local_secret@, identity_public_key@)[1] % 8,
            marker.pattern_slot == blake3_keyed_hash(local_secret@, identity_public_key@)[2] % 8,
            marker.palette_slot < 16,
            marker.shape_slot < 8,
            marker.pattern_slot < 8,
    {
        let digest = keyed_hash(local_secret.as_bytes(), identity_public_key);
        ContactVisualMarker {
            palette_slot: digest[0] % 16,
            shape_slot: digest[1] % 8,
            pattern_slot: digest[2] % 8,
        }
    }
}

/// A marker reads three separate bytes of the keyed digest of the identity key
/// under the local secret: the palette from the first (one of sixteen), the
/// shape from the second and the pattern from the third (one of eight each).
pub proof fn lemma_marker_reads_three_digest_bytes(identity_public_key: Seq<u8>, local_secret: Seq<u8>)
    ensures
        ({
            let digest = blake3_keyed_hash(local_secret, identity_public_key);
            let marker = marker_of(identity_public_key, local_secret);
            &&& marker.palette_slot == digest[0] % 16
            &&& marker.shape_slot == digest[1] % 8
            &&& marker.pattern_slot == digest[2] % 8
        }),
{
}

/// The public identifier of a render epoch.
#[derive(Debug, Clone, Copy, PartialEq, Eq, Hash)]
pub struct VisualEpochId([u8; 16]);

impl View for VisualEpochId {
    type V = Seq<u8>;

    closed spec fn view(&self) -> Seq<u8> {
        self.0@
    }
}

/// One rendering epoch: a public identifier and a secret render token, both
/// fresh for every epoch.
pub struct VisualRenderEpoch {
    id: VisualEpochId,
    render_token: [u8; 32],
}

/// A render epoch as plain values: (identifier, render token).
pub type RenderEpochView = (Seq<u8>, Seq<u8>);

impl View for VisualRenderEpoch {
    type V = RenderEpochView;

    closed spec fn view(&self) -> RenderEpochView {
        (self.id@, self.render_token@)
    }
}

/// The debug text of a render epoch with identifier `id`: the identifier's
/// bytes are shown, the render token is not.
pub open spec fn render_epoch_debug(id: Seq<u8>) -> Seq<char> {
    "VisualRenderEpoch { id: VisualEpochId("@ + decimal_list(id) + "), render_token: \"[REDACTED]\" }"@
}

impl VisualRenderEpoch {
    /// A new epoch with a random identifier and a random render token.
    pub fn fresh() -> (epoch: Self)
        ensures
            epoch@.0.len() == 16,
            epoch@.1.len() == 32,
    {
        let mut id = [0u8; 16];
        let mut render_token = [0u8; 32];
        fill_random(&mut id);
        fill_random(&mut render_token);
        VisualRenderEpoch { id: VisualEpochId(id), render_token }
    }

    /// The epoch's identifier.
    pub fn id(&self) -> (id: VisualEpochId)
        ensures
            id@ == self@.0,
    {
        self.id
    }

    /// The epoch's render token.
    pub fn render_token(&self) -> (token: &[u8; 32])
        ensures
            token@ == self@.1,
    {
        &self.render_token
    }

    /// The redacted debug text: the identifier is shown, the render token
    /// never is.
    pub fn debug_text(&self) -> (text: String)
        ensures
            text@ == render_epoch_debug(self@.0),
    {
        let mut text = String::from_str("VisualRenderEpoch { id: VisualEpochId(");
        push_decimal_list(&mut text, &self.id.0);
        text.append("), render_token: \"[REDACTED]\" }");
        text
    }
}

impl Drop for VisualRenderEpoch {
    /// Wipes the render token.
    fn drop(&mut self)
        opens_invariants none
        no_unwind
    {
        wipe_array(&mut self.render_token);
    }
}

} // verus!
