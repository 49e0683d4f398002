use sigil_core::composer::SymbolId;
use sigil_core::crypto::MessageSecret;
use sigil_core::symbol_stream::{SecureSymbolStream, SymbolMapKey, SymbolStreamError, SYMBOL_CODE_LEN};

fn alphabet() -> Vec<SymbolId> {
    (1..=40).map(SymbolId).collect()
}

#[test]
fn receiver_decodes_without_materializing_os_text() {
    let secret = MessageSecret::random();
    let key = SymbolMapKey::from_message_secret(&secret);
    let symbols = [SymbolId(8), SymbolId(15), SymbolId(12), SymbolId(1)];
    let stream = SecureSymbolStream::encode(&symbols, &key);
    let alphabet = alphabet();

    for (index, expected) in symbols.iter().enumerate() {
        assert_eq!(
            stream.decode_symbol_at(index, &alphabet, &key).unwrap(),
            *expected
        );
    }
}

#[test]
fn same_symbol_changes_code_with_message_secret() {
    let first_secret = MessageSecret::random();
    let second_secret = MessageSecret::random();
    let first_key = SymbolMapKey::from_message_secret(&first_secret);
    let second_key = SymbolMapKey::from_message_secret(&second_secret);

    let first = SecureSymbolStream::encode(&[SymbolId(8)], &first_key);
    let second = SecureSymbolStream::encode(&[SymbolId(8)], &second_key);

    assert_ne!(first.as_bytes(), second.as_bytes());
}

#[test]
fn encoded_stream_has_no_unicode_requirement() {
    let secret = MessageSecret::random();
    let key = SymbolMapKey::from_message_secret(&secret);
    let stream = SecureSymbolStream::encode(&[SymbolId(1), SymbolId(2)], &key);
    assert_eq!(stream.as_bytes().len(), 2 * SYMBOL_CODE_LEN);
}

#[test]
fn symbol_state_debug_output_is_redacted() {
    let secret = MessageSecret::random();
    let key = SymbolMapKey::from_message_secret(&secret);
    let stream = SecureSymbolStream::encode(&[SymbolId(1), SymbolId(2)], &key);

    assert!(key.debug_text().contains("REDACTED"));
    assert!(stream.debug_text().contains("REDACTED"));
    assert!(!stream.debug_text().contains(&format!("{:?}", stream.as_bytes())));
}

#[test]
fn symbol_code_is_a_keyed_hash_prefix() {
    let secret = MessageSecret::random();
    let key = SymbolMapKey::from_message_secret(&secret);
    let stream = SecureSymbolStream::encode(&[SymbolId(0x0102)], &key);
    assert_eq!(stream.as_bytes().len(), SYMBOL_CODE_LEN);
    assert!(!stream.is_empty());
    assert_eq!(stream.symbol_count(), 1);
    let same = SecureSymbolStream::encode(&[SymbolId(0x0102)], &key);
    assert_eq!(stream.as_bytes(), same.as_bytes());
    let other = SecureSymbolStream::encode(&[SymbolId(0x0201)], &key);
    assert_ne!(stream.as_bytes(), other.as_bytes());
}

#[test]
fn decoding_reports_bad_positions_and_unknown_codes() {
    let secret = MessageSecret::random();
    let key = SymbolMapKey::from_message_secret(&secret);
    let stream = SecureSymbolStream::encode(&[SymbolId(3), SymbolId(77)], &key);
    let alphabet = alphabet();
    assert_eq!(stream.decode_symbol_at(0, &alphabet, &key), Ok(SymbolId(3)));
    assert_eq!(stream.decode_symbol_at(1, &alphabet, &key), Err(SymbolStreamError::UnknownSymbolCode));
    assert_eq!(stream.decode_symbol_at(2, &alphabet, &key), Err(SymbolStreamError::InvalidIndex));
    let other_key = SymbolMapKey::from_message_secret(&MessageSecret::random());
    assert_eq!(stream.decode_symbol_at(0, &alphabet, &other_key), Err(SymbolStreamError::UnknownSymbolCode));
}

#[test]
fn streams_are_read_back_only_as_whole_codes() {
    assert_eq!(SecureSymbolStream::from_encoded(vec![0u8; 17]).err(), Some(SymbolStreamError::MalformedStream));
    let stream = SecureSymbolStream::from_encoded(vec![1u8; 32]).unwrap();
    assert_eq!(stream.symbol_count(), 2);
    let empty = SecureSymbolStream::from_encoded(Vec::new()).unwrap();
    assert!(empty.is_empty());
    assert_eq!(empty.symbol_count(), 0);
}

#[test]
fn cleared_stream_is_empty() {
    let key = SymbolMapKey::from_message_secret(&MessageSecret::random());
    let mut stream = SecureSymbolStream::encode(&[SymbolId(5), SymbolId(6), SymbolId(7)], &key);
    assert_eq!(stream.debug_text(), "SecureSymbolStream { symbol_count: 3, bytes: \"[REDACTED]\" }");
    stream.clear();
    assert!(stream.is_empty());
    assert_eq!(stream.symbol_count(), 0);
    assert_eq!(key.debug_text(), "SymbolMapKey([REDACTED])");
}

#[test]
fn symbol_stream_error_messages() {
    assert_eq!(SymbolStreamError::MalformedStream.message(), "malformed secure symbol stream");
    assert_eq!(SymbolStreamError::UnknownSymbolCode.message(), "unknown symbol code");
    assert_eq!(SymbolStreamError::InvalidIndex.message(), "invalid symbol index");
}

#[test]
fn encoding_a_concatenation_joins_the_encodings() {
    let key = SymbolMapKey::from_message_secret(&MessageSecret::random());
    let first = [SymbolId(9), SymbolId(300)];
    let second = [SymbolId(1), SymbolId(65535), SymbolId(9)];
    let joined: Vec<SymbolId> = first.iter().chain(second.iter()).copied().collect();
    let mut expected = SecureSymbolStream::encode(&first, &key).as_bytes().to_vec();
    expected.extend_from_slice(SecureSymbolStream::encode(&second, &key).as_bytes());
    let stream = SecureSymbolStream::encode(&joined, &key);
    assert_eq!(stream.as_bytes(), expected.as_slice());
    assert_eq!(stream.symbol_count(), 5);
}
