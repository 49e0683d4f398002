use sigil_core::wasm_demo::{parse_missing_slots, DemoError, DemoSession, MAX_INPUT_BYTES};

#[test]
fn missing_slots_are_trimmed_deduplicated_and_ordered_by_first_mention() {
    assert_eq!(parse_missing_slots("", 20), Ok(vec![]));
    assert_eq!(parse_missing_slots(" , ,", 20), Ok(vec![]));
    assert_eq!(parse_missing_slots("3, 1 ,3,\t20\n", 20), Ok(vec![3, 1, 20]));
    assert_eq!(parse_missing_slots("+7", 20), Ok(vec![7]));
    assert_eq!(parse_missing_slots("\u{3000}5\u{a0}", 20), Ok(vec![5]));
}

#[test]
fn missing_slots_must_be_numbers() {
    assert_eq!(parse_missing_slots("1,x", 20), Err(DemoError::MalformedMissingSlots));
    assert_eq!(parse_missing_slots("1 2", 20), Err(DemoError::MalformedMissingSlots));
    assert_eq!(parse_missing_slots("-1", 20), Err(DemoError::MalformedMissingSlots));
    assert_eq!(parse_missing_slots("+", 20), Err(DemoError::MalformedMissingSlots));
    assert_eq!(parse_missing_slots("99999999999999999999999", 20), Err(DemoError::MalformedMissingSlots));
    assert_eq!(parse_missing_slots("٣", 20), Err(DemoError::MalformedMissingSlots));
}

#[test]
fn missing_slots_must_exist_in_the_session() {
    assert_eq!(parse_missing_slots("0", 20), Err(DemoError::MissingSlotOutOfRange));
    assert_eq!(parse_missing_slots("21", 20), Err(DemoError::MissingSlotOutOfRange));
    assert_eq!(parse_missing_slots("18446744073709551615", 20), Err(DemoError::MissingSlotOutOfRange));
}

#[test]
fn first_bad_item_decides_the_error() {
    assert_eq!(parse_missing_slots("0,x", 20), Err(DemoError::MissingSlotOutOfRange));
    assert_eq!(parse_missing_slots("x,0", 20), Err(DemoError::MalformedMissingSlots));
}

#[test]
fn demo_input_limits() {
    assert!(matches!(DemoSession::new(&[]), Err(DemoError::EmptyInput)));
    assert!(matches!(DemoSession::new(&vec![1u8; MAX_INPUT_BYTES + 1]), Err(DemoError::InputTooLong)));
    assert!(DemoSession::new(&vec![0xFFu8; MAX_INPUT_BYTES]).is_ok());
}

#[test]
fn demo_survives_the_loss_of_eight_fragments() {
    let session = DemoSession::new(b"hello sigil").unwrap();
    let report = session.run("1,2,3,4,5,6,7,8").unwrap();
    assert_eq!(report.fragments_total, 20);
    assert_eq!(report.fragments_required, 12);
    assert_eq!(report.fragments_available, 12);
    assert_eq!(report.fragments_lost, 8);
    assert!(report.reconstruction_matches);
    assert!(report.outer_authenticated);
    assert!(report.inner_authenticated);
    assert_eq!(report.outer_wire_digest.len(), 64);
    assert!(report.outer_wire_digest.chars().all(|c| c.is_ascii_hexdigit() && !c.is_ascii_uppercase()));
}

#[test]
fn demo_fails_beyond_eight_lost_fragments() {
    let session = DemoSession::new(&[0u8]).unwrap();
    let report = session.run("20,19,18,17,16,15,14,13,12").unwrap();
    assert_eq!(report.fragments_available, 11);
    assert_eq!(report.fragments_lost, 9);
    assert!(!report.reconstruction_matches);
    assert!(!report.outer_authenticated);
    assert!(!report.inner_authenticated);
}

#[test]
fn demo_without_losses_and_with_repeats() {
    let session = DemoSession::new(b"abc").unwrap();
    let full = session.run("").unwrap();
    assert_eq!((full.fragments_available, full.fragments_lost), (20, 0));
    assert!(full.reconstruction_matches && full.inner_authenticated);
    let repeated = session.run("4,4,4").unwrap();
    assert_eq!((repeated.fragments_available, repeated.fragments_lost), (19, 1));
    assert_eq!(repeated.outer_wire_digest, full.outer_wire_digest);
    assert_eq!(session.run("21").err(), Some(DemoError::MissingSlotOutOfRange));
}

#[test]
fn demo_error_messages() {
    assert_eq!(DemoError::EmptyInput.message(), "message cannot be empty");
    assert_eq!(DemoError::InputTooLong.message(), "message exceeds 512-byte browser demo limit");
    assert_eq!(
        DemoError::MalformedMissingSlots.message(),
        "missing fragment slots must be comma-separated integers"
    );
    assert_eq!(
        DemoError::MissingSlotOutOfRange.message(),
        "missing fragment slot is outside this demo session"
    );
    assert_eq!(
        DemoError::Crypto(sigil_core::CryptoError::AuthenticationFailed).message(),
        "authentication failed"
    );
    assert_eq!(
        DemoError::Fragment(sigil_core::FragmentError::DigestMismatch).message(),
        "reconstructed ciphertext digest mismatch"
    );
}

#[test]
fn demo_reports_the_library_version() {
    assert_eq!(sigil_core::wasm_demo::sigil_demo_version(), "0.3.0");
}
