use sigil_core::crypto::{CryptoError, LayeredEnvelope, MessageSecret, TransportSecret};
use sigil_core::identity::{
    build_identity_bound_application_aad, ContactAlias, ContactRecord, IdentityPublicKey, TrustState,
};

fn key(byte: u8) -> IdentityPublicKey {
    IdentityPublicKey::new([byte; 32])
}

#[test]
fn alias_has_no_human_name_and_uses_fixed_random_code_shape() {
    let alias = ContactAlias::random().display();
    assert_eq!(alias.len(), 19);
    assert_eq!(alias.chars().filter(|c| *c == '-').count(), 3);
}

#[test]
fn fingerprint_is_stable_for_the_same_public_identity() {
    assert_eq!(key(7).fingerprint(), key(7).fingerprint());
    assert_ne!(key(7).fingerprint(), key(8).fingerprint());
}

#[test]
fn contact_becomes_verified_only_for_the_expected_fingerprint() {
    let mut contact = ContactRecord::new(key(1));
    assert!(!contact.verify_observed_fingerprint(key(2).fingerprint()));
    assert_eq!(contact.trust(), TrustState::Unverified);
    assert!(contact.verify_observed_fingerprint(key(1).fingerprint()));
    assert_eq!(contact.trust(), TrustState::Verified);
}

#[test]
fn identity_change_invalidates_existing_trust() {
    let mut contact = ContactRecord::new(key(1));
    assert!(contact.verify_observed_fingerprint(key(1).fingerprint()));
    let previous_alias = contact.alias();

    assert!(contact.replace_identity(key(2)));
    assert_eq!(contact.trust(), TrustState::KeyChanged);
    assert_ne!(contact.alias(), previous_alias);
    assert!(!contact.verify_observed_fingerprint(key(1).fingerprint()));
    assert!(contact.verify_observed_fingerprint(key(2).fingerprint()));
    assert_eq!(contact.trust(), TrustState::Verified);
}

#[test]
fn identity_bound_aad_rejects_a_different_receiver_context() {
    let sender = key(1);
    let receiver_a = key(2);
    let receiver_b = key(3);
    let aad_a = build_identity_bound_application_aad(&sender, &receiver_a);
    let aad_b = build_identity_bound_application_aad(&sender, &receiver_b);
    let message_secret = MessageSecret::random();
    let transport_secret = TransportSecret::random();
    let envelope = LayeredEnvelope::seal(
        &[4, 8, 15, 16, 23, 42],
        &message_secret,
        &transport_secret,
        &aad_a,
        b"transport-context",
    )
    .unwrap();

    assert_eq!(
        envelope.open(
            &message_secret,
            &transport_secret,
            &aad_b,
            b"transport-context",
        ),
        Err(CryptoError::AuthenticationFailed)
    );
}

#[test]
fn identity_bound_aad_is_role_ordered() {
    let alice = key(4);
    let bob = key(5);
    assert_ne!(
        build_identity_bound_application_aad(&alice, &bob),
        build_identity_bound_application_aad(&bob, &alice)
    );
}

#[test]
fn fingerprint_is_the_blake3_derived_key_of_the_identity() {
    let expected = blake3::derive_key("sigil.identity.fingerprint.v1", &[7u8; 32]);
    assert_eq!(key(7).fingerprint().as_bytes(), &expected);
    assert_eq!(key(7).as_bytes(), &[7u8; 32]);
}

#[test]
fn identity_bound_aad_is_label_then_sender_then_receiver() {
    let aad = build_identity_bound_application_aad(&key(1), &key(2));
    let label = b"sigil.application.identity-bound.v1";
    assert_eq!(aad.len(), label.len() + 64);
    assert_eq!(&aad[..label.len()], label);
    assert_eq!(&aad[label.len()..label.len() + 32], key(1).fingerprint().as_bytes());
    assert_eq!(&aad[label.len() + 32..], key(2).fingerprint().as_bytes());
}

#[test]
fn grouped_hex_shows_every_fingerprint_byte() {
    let fingerprint = key(9).fingerprint();
    let text = fingerprint.to_grouped_hex();
    assert_eq!(text.len(), 79);
    let bytes = fingerprint.as_bytes();
    let mut expected = String::new();
    for index in 0..16 {
        if index > 0 {
            expected.push(' ');
        }
        expected.push_str(&format!("{:02X}{:02X}", bytes[2 * index], bytes[2 * index + 1]));
    }
    assert_eq!(text, expected);
}

#[test]
fn alias_display_is_upper_case_hex_in_four_groups() {
    let alias = ContactAlias::random();
    let text = alias.display();
    let groups: Vec<&str> = text.split('-').collect();
    assert_eq!(groups.len(), 4);
    for group in groups {
        assert_eq!(group.len(), 4);
        assert!(group.chars().all(|c| c.is_ascii_digit() || ('A'..='F').contains(&c)));
    }
}

#[test]
fn replacing_with_the_same_key_changes_nothing() {
    let mut contact = ContactRecord::new(key(3));
    assert!(contact.verify_observed_fingerprint(key(3).fingerprint()));
    let before = contact.clone();
    assert!(!contact.replace_identity(key(3)));
    assert_eq!(contact, before);
    assert_eq!(contact.trust(), TrustState::Verified);
    assert_eq!(contact.identity(), key(3));
    assert_eq!(contact.fingerprint(), key(3).fingerprint());
}

#[test]
fn rotating_an_alias_keeps_identity_and_trust() {
    let mut contact = ContactRecord::new(key(6));
    let before = contact.alias();
    contact.rotate_alias();
    assert_ne!(contact.alias(), before);
    assert_eq!(contact.identity(), key(6));
    assert_eq!(contact.trust(), TrustState::Unverified);
}

#[test]
fn identity_bound_aad_is_ninety_nine_bytes() {
    assert_eq!(build_identity_bound_application_aad(&key(10), &key(11)).len(), 99);
    assert_eq!(key(10).fingerprint().as_bytes().len(), 32);
}
