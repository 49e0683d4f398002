use sigil_core::composer::{ComposerError, LayoutSession, SensitiveBuffer, SymbolId};
use std::collections::HashSet;

fn alphabet() -> Vec<SymbolId> {
    (1..=36).map(SymbolId).collect()
}

#[test]
fn layout_contains_every_symbol_exactly_once() {
    let symbols = alphabet();
    let session = LayoutSession::new(&symbols).unwrap();
    let mut actual: Vec<_> = (0..session.slot_count())
        .map(|slot| session.symbol_for_slot(slot).unwrap())
        .collect();
    actual.sort();
    assert_eq!(actual, symbols);
}

#[test]
fn token_mapping_is_unique_within_session() {
    let symbols = alphabet();
    let session = LayoutSession::new(&symbols).unwrap();
    let tokens: HashSet<_> = symbols
        .iter()
        .map(|symbol| session.token_for_symbol(*symbol).unwrap().expose())
        .collect();
    assert_eq!(tokens.len(), symbols.len());
    assert!(!tokens.contains(&0));
}

#[test]
fn slot_resolves_to_matching_ephemeral_token() {
    let symbols = alphabet();
    let session = LayoutSession::new(&symbols).unwrap();
    for slot in 0..session.slot_count() {
        let symbol = session.symbol_for_slot(slot).unwrap();
        assert_eq!(
            session.token_for_slot(slot).unwrap(),
            session.token_for_symbol(symbol).unwrap()
        );
    }
}

#[test]
fn duplicate_symbols_are_rejected() {
    let result = LayoutSession::new(&[SymbolId(7), SymbolId(7)]);
    assert_eq!(
        result.unwrap_err(),
        ComposerError::DuplicateSymbol(SymbolId(7))
    );
}

#[test]
fn sensitive_buffer_can_be_explicitly_cleared() {
    let session = LayoutSession::new(&alphabet()).unwrap();
    let mut buffer = SensitiveBuffer::default();
    buffer.push(session.token_for_slot(0).unwrap());
    buffer.push(session.token_for_slot(1).unwrap());
    assert_eq!(buffer.len(), 2);
    buffer.clear();
    assert!(buffer.is_empty());
}

#[test]
fn empty_alphabet_is_rejected() {
    assert_eq!(
        LayoutSession::new(&[]).unwrap_err(),
        ComposerError::EmptyAlphabet
    );
}

#[test]
fn first_repeated_symbol_is_the_one_reported() {
    let symbols = [SymbolId(1), SymbolId(2), SymbolId(3), SymbolId(2), SymbolId(1)];
    assert_eq!(
        LayoutSession::new(&symbols).unwrap_err(),
        ComposerError::DuplicateSymbol(SymbolId(2))
    );
}

#[test]
fn slots_past_the_alphabet_are_invalid() {
    let session = LayoutSession::new(&alphabet()).unwrap();
    assert_eq!(session.slot_count(), 36);
    assert_eq!(session.symbol_for_slot(36), Err(ComposerError::InvalidSlot(36)));
    assert_eq!(session.token_for_slot(99), Err(ComposerError::InvalidSlot(99)));
    assert!(session.token_for_symbol(SymbolId(500)).is_none());
}

#[test]
fn every_slot_token_is_its_symbols_token() {
    let symbols = [SymbolId(10), SymbolId(20), SymbolId(30)];
    let session = LayoutSession::new(&symbols).unwrap();
    let mut seen = Vec::new();
    for slot in 0..3 {
        let symbol = session.symbol_for_slot(slot).unwrap();
        let token = session.token_for_slot(slot).unwrap();
        assert_eq!(Some(token), session.token_for_symbol(symbol));
        assert_ne!(token.expose(), 0);
        seen.push(symbol);
    }
    seen.sort();
    assert_eq!(seen, symbols.to_vec());
}

#[test]
fn sensitive_buffer_keeps_tokens_in_order() {
    let session = LayoutSession::new(&alphabet()).unwrap();
    let first = session.token_for_slot(3).unwrap();
    let second = session.token_for_slot(4).unwrap();
    let mut buffer = SensitiveBuffer::default();
    assert!(buffer.is_empty());
    buffer.push(first);
    buffer.push(second);
    assert_eq!(buffer.as_tokens(), &[first.expose(), second.expose()]);
}

#[test]
fn composer_error_messages_name_the_culprit() {
    assert_eq!(ComposerError::EmptyAlphabet.message(), "symbol set cannot be empty");
    assert_eq!(
        ComposerError::DuplicateSymbol(SymbolId(407)).message(),
        "duplicate symbol id 407"
    );
    assert_eq!(ComposerError::InvalidSlot(0).message(), "invalid key slot 0");
    assert_eq!(ComposerError::InvalidSlot(1234).message(), "invalid key slot 1234");
}
