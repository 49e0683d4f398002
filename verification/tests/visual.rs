use sigil_core::visual::{ContactVisualMarker, LocalVisualSecret, VisualRenderEpoch};

#[test]
fn marker_is_stable_for_identity_and_local_secret() {
    let secret = LocalVisualSecret::random();
    let identity = [7u8; 32];
    assert_eq!(
        ContactVisualMarker::derive(&identity, &secret),
        ContactVisualMarker::derive(&identity, &secret)
    );
}

#[test]
fn marker_changes_when_identity_changes() {
    let secret = LocalVisualSecret::random();
    let first = ContactVisualMarker::derive(&[1u8; 32], &secret);
    let second = ContactVisualMarker::derive(&[2u8; 32], &secret);
    assert_ne!(first, second);
}

#[test]
fn render_epochs_rotate_internal_state() {
    let first = VisualRenderEpoch::fresh();
    let second = VisualRenderEpoch::fresh();
    assert_ne!(first.id(), second.id());
    assert_ne!(first.render_token(), second.render_token());
}

#[test]
fn visual_secret_debug_output_is_redacted() {
    let secret = LocalVisualSecret::random();
    let epoch = VisualRenderEpoch::fresh();
    assert!(secret.debug_text().contains("REDACTED"));
    assert!(epoch.debug_text().contains("REDACTED"));
}

#[test]
fn marker_slots_stay_in_range() {
    for round in 0..50u8 {
        let secret = LocalVisualSecret::random();
        let marker = ContactVisualMarker::derive(&[round; 32], &secret);
        assert!(marker.palette_slot < 16);
        assert!(marker.shape_slot < 8);
        assert!(marker.pattern_slot < 8);
    }
}

#[test]
fn render_epoch_debug_shows_the_id_but_not_the_token() {
    let epoch = VisualRenderEpoch::fresh();
    let debug = epoch.debug_text();
    let expected = format!(
        "VisualRenderEpoch {{ id: {:?}, render_token: \"[REDACTED]\" }}",
        epoch.id()
    );
    assert_eq!(debug, expected);
    assert!(!debug.contains(&format!("{:?}", epoch.render_token())));
    assert_eq!(LocalVisualSecret::random().debug_text(), "LocalVisualSecret([REDACTED])");
}
