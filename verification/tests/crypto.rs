use sigil_core::crypto::{
    CryptoError, LayeredEnvelope, MessageSecret, ReplayGuard, TransportSecret, MAX_WIRE_BYTES, NONCE_LEN,
    WIRE_VERSION,
};

#[test]
fn layered_envelope_roundtrips_binary_symbol_stream() {
    let message_secret = MessageSecret::random();
    let transport_secret = TransportSecret::random();
    let symbols = [0x91, 0x03, 0xA7, 0x44, 0x10, 0xEF];

    let envelope = LayeredEnvelope::seal(
        &symbols,
        &message_secret,
        &transport_secret,
        b"conversation-state",
        b"route-state",
    )
    .unwrap();

    let parsed = LayeredEnvelope::from_wire_bytes(&envelope.to_wire_bytes()).unwrap();
    let opened = parsed
        .open(
            &message_secret,
            &transport_secret,
            b"conversation-state",
            b"route-state",
        )
        .unwrap();

    assert_eq!(opened, symbols);
}

#[test]
fn tampering_is_rejected_before_symbol_decode() {
    let message_secret = MessageSecret::random();
    let transport_secret = TransportSecret::random();
    let envelope = LayeredEnvelope::seal(
        &[1, 2, 3, 4],
        &message_secret,
        &transport_secret,
        b"app",
        b"transport",
    )
    .unwrap();

    let mut wire = envelope.to_wire_bytes();
    let last = wire.len() - 1;
    wire[last] ^= 0x80;
    let tampered = LayeredEnvelope::from_wire_bytes(&wire).unwrap();

    assert_eq!(
        tampered.open(&message_secret, &transport_secret, b"app", b"transport"),
        Err(CryptoError::AuthenticationFailed)
    );
}

#[test]
fn independent_transport_secret_is_required() {
    let message_secret = MessageSecret::random();
    let correct_transport = TransportSecret::random();
    let wrong_transport = TransportSecret::random();
    let envelope = LayeredEnvelope::seal(
        &[9, 8, 7],
        &message_secret,
        &correct_transport,
        b"app",
        b"transport",
    )
    .unwrap();

    assert_eq!(
        envelope.open(&message_secret, &wrong_transport, b"app", b"transport"),
        Err(CryptoError::AuthenticationFailed)
    );
}

#[test]
fn authenticated_context_is_bound_to_both_layers() {
    let message_secret = MessageSecret::random();
    let transport_secret = TransportSecret::random();
    let envelope = LayeredEnvelope::seal(
        &[5, 4, 3, 2, 1],
        &message_secret,
        &transport_secret,
        b"conversation-A",
        b"route-A",
    )
    .unwrap();

    assert_eq!(
        envelope.open(
            &message_secret,
            &transport_secret,
            b"conversation-B",
            b"route-A",
        ),
        Err(CryptoError::AuthenticationFailed)
    );
    assert_eq!(
        envelope.open(
            &message_secret,
            &transport_secret,
            b"conversation-A",
            b"route-B",
        ),
        Err(CryptoError::AuthenticationFailed)
    );
}

#[test]
fn secret_debug_output_is_redacted() {
    let message = MessageSecret::random();
    let transport = TransportSecret::random();
    assert_eq!(message.debug_text(), "MessageSecret([REDACTED])");
    assert_eq!(transport.debug_text(), "TransportSecret([REDACTED])");
}

#[test]
fn malformed_and_oversized_wire_objects_are_rejected() {
    assert_eq!(
        LayeredEnvelope::from_wire_bytes(&[WIRE_VERSION; NONCE_LEN]),
        Err(CryptoError::MalformedEnvelope)
    );
    let oversized = vec![0u8; MAX_WIRE_BYTES + 1];
    assert_eq!(
        LayeredEnvelope::from_wire_bytes(&oversized),
        Err(CryptoError::EnvelopeTooLarge)
    );
}

#[test]
fn exact_authenticated_replay_is_rejected() {
    let message_secret = MessageSecret::random();
    let transport_secret = TransportSecret::random();
    let envelope = LayeredEnvelope::seal(
        &[4, 2, 4, 2],
        &message_secret,
        &transport_secret,
        b"app",
        b"transport",
    )
    .unwrap();
    let mut guard = ReplayGuard::default();

    assert_eq!(
        guard
            .open_once(
                &envelope,
                &message_secret,
                &transport_secret,
                b"app",
                b"transport",
            )
            .unwrap(),
        vec![4, 2, 4, 2]
    );
    assert_eq!(
        guard.open_once(
            &envelope,
            &message_secret,
            &transport_secret,
            b"app",
            b"transport",
        ),
        Err(CryptoError::ReplayDetected)
    );
}

#[test]
fn failed_authentication_does_not_poison_replay_state() {
    let message_secret = MessageSecret::random();
    let transport_secret = TransportSecret::random();
    let envelope = LayeredEnvelope::seal(
        &[7, 7, 7],
        &message_secret,
        &transport_secret,
        b"app",
        b"transport",
    )
    .unwrap();
    let mut guard = ReplayGuard::new(8);

    assert_eq!(
        guard.open_once(
            &envelope,
            &message_secret,
            &transport_secret,
            b"wrong-app",
            b"transport",
        ),
        Err(CryptoError::AuthenticationFailed)
    );
    assert_eq!(
        guard
            .open_once(
                &envelope,
                &message_secret,
                &transport_secret,
                b"app",
                b"transport",
            )
            .unwrap(),
        vec![7, 7, 7]
    );
}

#[test]
fn replay_window_is_bounded_and_evicts_oldest_entry() {
    let message_secret = MessageSecret::random();
    let transport_secret = TransportSecret::random();
    let first = LayeredEnvelope::seal(
        &[1],
        &message_secret,
        &transport_secret,
        b"app",
        b"transport",
    )
    .unwrap();
    let second = LayeredEnvelope::seal(
        &[2],
        &message_secret,
        &transport_secret,
        b"app",
        b"transport",
    )
    .unwrap();
    let mut guard = ReplayGuard::new(1);

    guard
        .open_once(
            &first,
            &message_secret,
            &transport_secret,
            b"app",
            b"transport",
        )
        .unwrap();
    guard
        .open_once(
            &second,
            &message_secret,
            &transport_secret,
            b"app",
            b"transport",
        )
        .unwrap();

    assert_eq!(
        guard
            .open_once(
                &first,
                &message_secret,
                &transport_secret,
                b"app",
                b"transport",
            )
            .unwrap(),
        vec![1]
    );
}

#[test]
fn fresh_envelope_with_same_plaintext_is_not_a_replay() {
    let message_secret = MessageSecret::random();
    let transport_secret = TransportSecret::random();
    let first = LayeredEnvelope::seal(
        &[1, 1, 2, 3],
        &message_secret,
        &transport_secret,
        b"app",
        b"transport",
    )
    .unwrap();
    let second = LayeredEnvelope::seal(
        &[1, 1, 2, 3],
        &message_secret,
        &transport_secret,
        b"app",
        b"transport",
    )
    .unwrap();
    let mut guard = ReplayGuard::default();

    guard
        .open_once(
            &first,
            &message_secret,
            &transport_secret,
            b"app",
            b"transport",
        )
        .unwrap();
    assert_eq!(
        guard
            .open_once(
                &second,
                &message_secret,
                &transport_secret,
                b"app",
                b"transport",
            )
            .unwrap(),
        vec![1, 1, 2, 3]
    );
}

#[test]
fn wire_form_has_version_nonce_and_both_tags() {
    let message_secret = MessageSecret::random();
    let transport_secret = TransportSecret::random();
    let envelope = LayeredEnvelope::seal(&[], &message_secret, &transport_secret, b"", b"").unwrap();
    let wire = envelope.to_wire_bytes();
    assert_eq!(wire.len(), 82);
    assert_eq!(wire[0], WIRE_VERSION);
    assert_eq!(
        envelope.open(&message_secret, &transport_secret, b"", b""),
        Ok(Vec::new())
    );
}

#[test]
fn sealing_refuses_only_what_would_not_fit_on_the_wire() {
    let message_secret = MessageSecret::random();
    let transport_secret = TransportSecret::random();
    let largest = vec![0x5Au8; MAX_WIRE_BYTES - 82];
    let envelope = LayeredEnvelope::seal(&largest, &message_secret, &transport_secret, b"a", b"t").unwrap();
    assert_eq!(envelope.to_wire_bytes().len(), MAX_WIRE_BYTES);
    let too_large = vec![0x5Au8; MAX_WIRE_BYTES - 81];
    assert_eq!(
        LayeredEnvelope::seal(&too_large, &message_secret, &transport_secret, b"a", b"t"),
        Err(CryptoError::EnvelopeTooLarge)
    );
}

#[test]
fn wire_parsing_checks_version_and_length() {
    let mut shortest = vec![0u8; 41];
    shortest[0] = WIRE_VERSION;
    assert!(LayeredEnvelope::from_wire_bytes(&shortest).is_ok());
    assert_eq!(
        LayeredEnvelope::from_wire_bytes(&shortest[..40]),
        Err(CryptoError::MalformedEnvelope)
    );
    shortest[0] = WIRE_VERSION + 1;
    assert_eq!(
        LayeredEnvelope::from_wire_bytes(&shortest),
        Err(CryptoError::MalformedEnvelope)
    );
    assert_eq!(LayeredEnvelope::from_wire_bytes(&[]), Err(CryptoError::MalformedEnvelope));
}

#[test]
fn parsed_wire_reproduces_the_same_wire() {
    let message_secret = MessageSecret::random();
    let transport_secret = TransportSecret::random();
    let envelope = LayeredEnvelope::seal(&[3, 1, 4], &message_secret, &transport_secret, b"a", b"t").unwrap();
    let wire = envelope.to_wire_bytes();
    let parsed = LayeredEnvelope::from_wire_bytes(&wire).unwrap();
    assert_eq!(parsed, envelope);
    assert_eq!(parsed.to_wire_bytes(), wire);
}

#[test]
fn wrong_message_secret_fails_the_inner_layer() {
    let message_secret = MessageSecret::random();
    let other_message = MessageSecret::random();
    let transport_secret = TransportSecret::random();
    let envelope = LayeredEnvelope::seal(&[8, 8], &message_secret, &transport_secret, b"a", b"t").unwrap();
    assert_eq!(
        envelope.open(&other_message, &transport_secret, b"a", b"t"),
        Err(CryptoError::AuthenticationFailed)
    );
}

#[test]
fn zero_capacity_guard_keeps_one_entry() {
    let message_secret = MessageSecret::random();
    let transport_secret = TransportSecret::random();
    let envelope = LayeredEnvelope::seal(&[6], &message_secret, &transport_secret, b"a", b"t").unwrap();
    let mut guard = ReplayGuard::new(0);
    assert_eq!(guard.open_once(&envelope, &message_secret, &transport_secret, b"a", b"t"), Ok(vec![6]));
    assert_eq!(
        guard.open_once(&envelope, &message_secret, &transport_secret, b"a", b"t"),
        Err(CryptoError::ReplayDetected)
    );
}

#[test]
fn crypto_error_messages() {
    assert_eq!(CryptoError::AuthenticationFailed.message(), "authentication failed");
    assert_eq!(CryptoError::InvalidKey.message(), "invalid encryption key");
    assert_eq!(CryptoError::MalformedEnvelope.message(), "malformed layered envelope");
    assert_eq!(CryptoError::EnvelopeTooLarge.message(), "layered envelope exceeds size limit");
    assert_eq!(CryptoError::ReplayDetected.message(), "replayed layered envelope rejected");
}

#[test]
fn accepted_envelope_stays_a_replay_until_the_window_moves_past_it() {
    let message_secret = MessageSecret::random();
    let transport_secret = TransportSecret::random();
    let seal = |byte: u8| LayeredEnvelope::seal(&[byte], &message_secret, &transport_secret, b"a", b"t").unwrap();
    let watched = seal(0);
    let others: Vec<_> = (1..=3).map(seal).collect();
    let mut guard = ReplayGuard::new(3);
    assert_eq!(guard.open_once(&watched, &message_secret, &transport_secret, b"a", b"t"), Ok(vec![0]));
    for (k, other) in others.iter().enumerate() {
        let other_secret = MessageSecret::random();
        assert_eq!(
            guard.open_once(&watched, &other_secret, &transport_secret, b"x", b"y"),
            Err(CryptoError::ReplayDetected)
        );
        assert_eq!(
            guard.open_once(other, &message_secret, &transport_secret, b"a", b"t"),
            Ok(vec![k as u8 + 1])
        );
    }
    assert_eq!(guard.open_once(&watched, &message_secret, &transport_secret, b"a", b"t"), Ok(vec![0]));
}
