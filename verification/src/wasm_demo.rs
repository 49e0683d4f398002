//! The browser loopback demonstrator's logic. One session creates ephemeral
//! message and transport secrets, seals an identity-bound envelope, fragments
//! it, and on request drops the listed fragments, reconstructs the rest and
//! opens the result again. It is not a two-party protocol: there is no key
//! exchange or secret distribution here. The browser binding lives outside
//! this library.

use vstd::prelude::*;

use vstd::utf8::encode_utf8;

use crate::bytes::bytes_equal;
use crate::composer::SymbolId;
use crate::crypto::{
    crypto_error_text, lemma_wire_roundtrip, min_envelope_len, opened, parsed_wire, CryptoError, LayeredEnvelope, MessageSecret,
    TransportSecret, MAX_WIRE_BYTES,
};
use crate::digest::{blake3_hash, blake3_keyed_hash, hash};
use crate::fragmentation::{
    fragment_error_text, fragment_views, is_split_of, FragmentBundle, FragmentError, FragmentPolicy, ManifestModel, OpaqueFragment,
};
use crate::identity::{build_identity_bound_application_aad, identity_bound_aad, IdentityPublicKey};
use crate::media::chunks_needed;
use crate::symbol_stream::{encoded_symbols, symbol_map_label, SecureSymbolStream, SymbolMapKey};
use crate::text::{hex_text, lemma_hex_text_digits, lower_digits, lower_hex};
use crate::wipe::wipe_bytes;

verus! {

broadcast use {vstd::seq_lib::group_seq_properties, vstd::seq::group_seq_axioms};

/// Largest message, in bytes, that the demonstrator accepts.
pub const MAX_INPUT_BYTES: usize = 512;

/// The package version the demonstrator reports.
pub fn sigil_demo_version() -> (version: String)
    ensures
        version@ == "0.3.0"@,
{
    String::from_str("0.3.0")
}

/// Why a demonstrator session could not be created or run.
#[derive(Debug, Clone, Copy, PartialEq, Eq, Structural)]
pub enum DemoError {
    EmptyInput,
    InputTooLong,
    Crypto(CryptoError),
    Fragment(FragmentError),
    MalformedMissingSlots,
    MissingSlotOutOfRange,
}

/// The human-readable text of a demonstrator error.
pub open spec fn demo_error_text(error: DemoError) -> Seq<char> {
    match error {
        DemoError::EmptyInput => "message cannot be empty"@,
        DemoError::InputTooLong => "message exceeds 512-byte browser demo limit"@,
        DemoError::Crypto(e) => crypto_error_text(e),
        DemoError::Fragment(e) => fragment_error_text(e),
        DemoError::MalformedMissingSlots => "missing fragment slots must be comma-separated integers"@,
        DemoError::MissingSlotOutOfRange => "missing fragment slot is outside this demo session"@,
    }
}

impl DemoError {
    /// The error as text.
    pub fn message(&self) -> (text: String)
        ensures
            text@ == demo_error_text(*self),
    {
        match self {
            DemoError::EmptyInput => String::from_str("message cannot be empty"),
            DemoError::InputTooLong => String::from_str("message exceeds 512-byte browser demo limit"),
            DemoError::Crypto(e) => e.message(),
            DemoError::Fragment(e) => e.message(),
            DemoError::MalformedMissingSlots => String::from_str(
                "missing fragment slots must be comma-separated integers",
            ),
            DemoError::MissingSlotOutOfRange => String::from_str("missing fragment slot is outside this demo session"),
        }
    }
}

/// `char::is_whitespace`: the Unicode `White_Space` property.
pub open spec fn is_white_space(c: char) -> bool {
    let v = c as u32;
    ||| 0x09 <= v <= 0x0D
    ||| v == 0x20
    ||| v == 0x85
    ||| v == 0xA0
    ||| v == 0x1680
    ||| 0x2000 <= v <= 0x200A
    ||| v == 0x2028
    ||| v == 0x2029
    ||| v == 0x202F
    ||| v == 0x205F
    ||| v == 0x3000
}

/// `s` without its leading white space.
pub open spec fn trim_start(s: Seq<char>) -> Seq<char>
    decreases s.len(),
{
    if s.len() > 0 && is_white_space(s[0]) {
        trim_start(s.drop_first())
    } else {
        s
    }
}

/// `s` without its trailing white space.
pub open spec fn trim_end(s: Seq<char>) -> Seq<char>
    decreases s.len(),
{
    if s.len() > 0 && is_white_space(s.last()) {
        trim_end(s.drop_last())
    } else {
        s
    }
}

/// `str::trim`: `s` without leading or trailing white space.
pub open spec fn trimmed(s: Seq<char>) -> Seq<char> {
    trim_end(trim_start(s))
}

/// Every character of `s` is an ASCII decimal digit.
pub open spec fn all_digits(s: Seq<char>) -> bool {
    forall|i: int| 0 <= i < s.len() ==> '0' <= #[trigger] s[i] <= '9'
}

/// The number that the decimal digits `s` spell.
pub open spec fn digits_value(s: Seq<char>) -> nat
    decreases s.len(),
{
    if s.len() == 0 {
        0
    } else {
        digits_value(s.drop_last()) * 10 + (s.last() as nat - '0' as nat) as nat
    }
}

/// `usize::from_str`: an optional `+`, then one or more decimal digits whose
/// value fits in a `usize`.
pub open spec fn parse_unsigned(s: Seq<char>) -> Option<nat> {
    let digits = if s.len() > 0 && s[0] == '+' {
        s.drop_first()
    } else {
        s
    };
    if digits.len() > 0 && all_digits(digits) && digits_value(digits) <= usize::MAX {
        Some(digits_value(digits))
    } else {
        None
    }
}

/// What one comma-separated item of a missing-slot list gives: nothing when
/// it is blank, else a slot number from 1 to `total`.
pub open spec fn item_outcome(item: Seq<char>, total: nat) -> Result<Option<usize>, DemoError> {
    let text = trimmed(item);
    if text.len() == 0 {
        Ok(None)
    } else {
        match parse_unsigned(text) {
            None => Err(DemoError::MalformedMissingSlots),
            Some(n) => if n == 0 || n > total {
                Err(DemoError::MissingSlotOutOfRange)
            } else {
                Ok(Some(n as usize))
            },
        }
    }
}

/// The slots gathered so far, after one more item: an earlier error stands,
/// a new error replaces the slots, and a new slot is added unless it is
/// already there.
pub open spec fn add_item(slots: Result<Seq<usize>, DemoError>, item: Seq<char>, total: nat) -> Result<
    Seq<usize>,
    DemoError,
> {
    match slots {
        Err(e) => Err(e),
        Ok(found) => match item_outcome(item, total) {
            Err(e) => Err(e),
            Ok(None) => Ok(found),
            Ok(Some(n)) => Ok(
                if found.contains(n) {
                    found
                } else {
                    found.push(n)
                },
            ),
        },
    }
}

/// Reading `text` from the left: the outcome of the items completed by a
/// comma so far, and the characters of the item in progress.
pub open spec fn scan_items(text: Seq<char>, total: nat) -> (Result<Seq<usize>, DemoError>, Seq<char>)
    decreases text.len(),
{
    if text.len() == 0 {
        (Ok(Seq::empty()), Seq::empty())
    } else {
        let (done, item) = scan_items(text.drop_last(), total);
        if text.last() == ',' {
            (add_item(done, item, total), Seq::empty())
        } else {
            (done, item.push(text.last()))
        }
    }
}

/// The slots that a comma-separated list names, each once, in the order they
/// are first listed; or the error of the first item that is not blank, not a
/// number, or out of the range 1 to `total`.
pub open spec fn missing_slots(text: Seq<char>, total: nat) -> Result<Seq<usize>, DemoError> {
    let (done, item) = scan_items(text, total);
    add_item(done, item, total)
}

/// The plain value of a slot list result.
pub open spec fn slots_result(result: Result<Vec<usize>, DemoError>) -> Result<Seq<usize>, DemoError> {
    match result {
        Ok(slots) => Ok(slots@),
        Err(e) => Err(e),
    }
}

/// Once the items read so far have failed, the whole list fails the same way.
proof fn lemma_scan_error_persists(text: Seq<char>, total: nat, i: int)
    requires
        0 <= i <= text.len(),
        scan_items(text.take(i), total).0 is Err,
    ensures
        scan_items(text, total).0 == scan_items(text.take(i), total).0,
    decreases text.len() - i,
{
    if i < text.len() {
        assert(text.take(i + 1).drop_last() =~= text.take(i));
        lemma_scan_error_persists(text, total, i + 1);
    } else {
        assert(text.take(i) =~= text);
    }
}

/// The characters of `text`, in order.
fn chars_of(text: &str) -> (chars: Vec<char>)
    ensures
        chars@ == text@,
{
    let mut chars: Vec<char> = Vec::new();
    for c in it: text.chars()
        invariant
            chars@ == it.seq().take(it.index() as int),
    {
        chars.push(c);
    }
    chars
}

/// `char::is_whitespace`.
fn white_space(c: char) -> (white: bool)
    ensures
        white == is_white_space(c),
{
    let v = c as u32;
    (0x09 <= v && v <= 0x0D) || v == 0x20 || v == 0x85 || v == 0xA0 || v == 0x1680 || (0x2000 <= v && v
        <= 0x200A) || v == 0x2028 || v == 0x2029 || v == 0x202F || v == 0x205F || v == 0x3000
}

/// The bounds of `chars[start..end]` without its leading and trailing white
/// space.
fn trimmed_bounds(chars: &Vec<char>, start: usize, end: usize) -> (bounds: (usize, usize))
    requires
        start <= end <= chars@.len(),
    ensures
        start <= bounds.0 <= bounds.1 <= end,
        chars@.subrange(bounds.0 as int, bounds.1 as int) == trimmed(chars@.subrange(start as int, end as int)),
{
    let ghost item = chars@.subrange(start as int, end as int);
    let mut lo = start;
    while lo < end && white_space(chars[lo])
        invariant
            start <= lo <= end <= chars@.len(),
            item == chars@.subrange(start as int, end as int),
            trim_start(item) == trim_start(chars@.subrange(lo as int, end as int)),
        decreases end - lo,
    {
        assert(chars@.subrange(lo as int, end as int).drop_first() =~= chars@.subrange(lo as int + 1, end as int));
        lo = lo + 1;
    }
    let ghost front = chars@.subrange(lo as int, end as int);
    assert(trim_start(item) == front);
    let mut hi = end;
    while hi > lo && white_space(chars[hi - 1])
        invariant
            start <= lo <= hi <= end <= chars@.len(),
            front == chars@.subrange(lo as int, end as int),
            trim_end(front) == trim_end(chars@.subrange(lo as int, hi as int)),
        decreases hi - lo,
    {
        assert(chars@.subrange(lo as int, hi as int).drop_last() =~= chars@.subrange(lo as int, hi as int - 1));
        hi = hi - 1;
    }
    (lo, hi)
}

/// For decimal digits, a longer prefix spells a number at least as large.
proof fn lemma_digits_monotone(s: Seq<char>, i: int, j: int)
    requires
        all_digits(s),
        0 <= i <= j <= s.len(),
    ensures
        digits_value(s.take(i)) <= digits_value(s.take(j)),
    decreases j - i,
{
    if i < j {
        lemma_digits_monotone(s, i, j - 1);
        assert(s.take(j).drop_last() =~= s.take(j - 1));
        assert('0' <= s[j - 1] <= '9');
    }
}

/// `usize::from_str` on `chars[lo..hi]`.
fn parse_number(chars: &Vec<char>, lo: usize, hi: usize) -> (number: Option<usize>)
    requires
        lo <= hi <= chars@.len(),
    ensures
        match number {
            Some(n) => parse_unsigned(chars@.subrange(lo as int, hi as int)) == Some(n as nat),
            None => parse_unsigned(chars@.subrange(lo as int, hi as int)) is None,
        },
{
    let ghost text = chars@.subrange(lo as int, hi as int);
    let mut first = lo;
    if lo < hi && chars[lo] == '+' {
        first = lo + 1;
    }
    let ghost digits = chars@.subrange(first as int, hi as int);
    assert(digits =~= (if text.len() > 0 && text[0] == '+' {
        text.drop_first()
    } else {
        text
    }));
    if first == hi {
        return None;
    }
    let mut value: usize = 0;
    let mut k = first;
    while k < hi
        invariant
            lo <= first <= k <= hi <= chars@.len(),
            digits == chars@.subrange(first as int, hi as int),
            text == chars@.subrange(lo as int, hi as int),
            digits == (if text.len() > 0 && text[0] == '+' {
                text.drop_first()
            } else {
                text
            }),
            digits.len() > 0,
            all_digits(digits.take(k - first)),
            value == digits_value(digits.take(k - first)),
        decreases hi - k,
    {
        let c = chars[k];
        let ghost taken = digits.take(k - first + 1);
        assert(taken.drop_last() =~= digits.take(k - first));
        assert(taken.last() == c);
        if c < '0' || c > '9' {
            assert(!all_digits(digits)) by {
                assert(digits[k - first] == c);
            }
            return None;
        }
        let digit = (c as u32 - '0' as u32) as usize;
        let next = match value.checked_mul(10) {
            Some(scaled) => scaled.checked_add(digit),
            None => None,
        };
        match next {
            Some(n) => {
                value = n;
            },
            None => {
                proof {
                    assert(digits_value(taken) > usize::MAX);
                    if all_digits(digits) {
                        lemma_digits_monotone(digits, k - first + 1, digits.len() as int);
                        assert(digits.take(digits.len() as int) =~= digits);
                    }
                }
                return None;
            },
        }
        k = k + 1;
    }
    assert(digits.take(k - first) =~= digits);
    Some(value)
}

/// What one item `chars[start..end]` of a missing-slot list gives.
fn item_slot(chars: &Vec<char>, start: usize, end: usize, total: usize) -> (outcome: Result<Option<usize>, DemoError>)
    requires
        start <= end <= chars@.len(),
    ensures
        outcome == item_outcome(chars@.subrange(start as int, end as int), total as nat),
{
    let (lo, hi) = trimmed_bounds(chars, start, end);
    if lo == hi {
        return Ok(None);
    }
    match parse_number(chars, lo, hi) {
        None => Err(DemoError::MalformedMissingSlots),
        Some(n) => if n == 0 || n > total {
            Err(DemoError::MissingSlotOutOfRange)
        } else {
            Ok(Some(n))
        },
    }
}

/// Whether `slots` holds `slot`.
fn holds_slot(slots: &Vec<usize>, slot: usize) -> (found: bool)
    ensures
        found == slots@.contains(slot),
{
    let mut i: usize = 0;
    while i < slots.len()
        invariant
            i <= slots@.len(),
            forall|j: int| 0 <= j < i ==> slots@[j] != slot,
        decreases slots@.len() - i,
    {
        if slots[i] == slot {
            assert(slots@[i as int] == slot);
            return true;
        }
        i = i + 1;
    }
    false
}

/// Adds the outcome of the item `chars[start..end]` to `slots`.
fn add_item_slot(slots: &mut Vec<usize>, chars: &Vec<char>, start: usize, end: usize, total: usize) -> (outcome: Result<(), DemoError>)
    requires
        start <= end <= chars@.len(),
    ensures
        match outcome {
            Ok(()) => add_item(Ok(old(slots)@), chars@.subrange(start as int, end as int), total as nat)
                == Ok::<Seq<usize>, DemoError>(final(slots)@),
            Err(e) => add_item(Ok(old(slots)@), chars@.subrange(start as int, end as int), total as nat)
                == Err::<Seq<usize>, DemoError>(e),
        },
{
    match item_slot(chars, start, end, total) {
        Err(e) => Err(e),
        Ok(None) => Ok(()),
        Ok(Some(n)) => {
            if !holds_slot(slots, n) {
                slots.push(n);
            }
            Ok(())
        },
    }
}

/// Reads a comma-separated list of fragment slots to drop, numbered from 1
/// to `total`. Blank items are skipped; each item is trimmed of white space
/// and must be a decimal number (with an optional `+`) within range. The
/// slots come back once each, in the order they are first listed.
pub fn parse_missing_slots(text: &str, total: usize) -> (result: Result<Vec<usize>, DemoError>)
    ensures
        slots_result(result) == missing_slots(text@, total as nat),
{
    let chars = chars_of(text);
    let mut slots: Vec<usize> = Vec::new();
    let mut start: usize = 0;
    let mut i: usize = 0;
    while i < chars.len()
        invariant
            chars@ == text@,
            start <= i <= chars@.len(),
            scan_items(chars@.take(i as int), total as nat) == (
            Ok::<Seq<usize>, DemoError>(slots@),
            chars@.subrange(start as int, i as int),
            ),
        decreases chars@.len() - i,
    {
        assert(chars@.take(i as int + 1).drop_last() =~= chars@.take(i as int));
        if chars[i] == ',' {
            match add_item_slot(&mut slots, &chars, start, i, total) {
                Err(e) => {
                    proof {
                        lemma_scan_error_persists(chars@, total as nat, i + 1);
                        assert(chars@.take(chars@.len() as int) =~= chars@);
                    }
                    return Err(e);
                },
                Ok(()) => {},
            }
            start = i + 1;
        } else {
            assert(chars@.subrange(start as int, i as int).push(chars@[i as int]) =~= chars@.subrange(
                start as int,
                i as int + 1,
            ));
        }
        i = i + 1;
    }
    assert(chars@.take(i as int) =~= chars@);
    match add_item_slot(&mut slots, &chars, start, i, total) {
        Err(e) => Err(e),
        Ok(()) => Ok(slots),
    }
}

/// The demonstrator's sender identity context (a fixed label, not a key
/// anyone holds).
pub open spec fn demo_sender() -> Seq<u8> {
    Seq::new(32, |_i: int| 0xA1u8)
}

/// The demonstrator's receiver identity context.
pub open spec fn demo_receiver() -> Seq<u8> {
    Seq::new(32, |_i: int| 0xB2u8)
}

/// Transport associated data of the demonstrator.
pub open spec fn demo_transport_aad() -> Seq<u8> {
    encode_utf8("sigil-web-demo-transport-v1"@)
}

/// The symbols of a demonstrator message: byte `b` becomes symbol `b + 1`.
pub open spec fn demo_symbols(input: Seq<u8>) -> Seq<SymbolId> {
    input.map_values(|b: u8| SymbolId((b + 1) as u16))
}

/// A demonstrator session as plain values.
pub ghost struct DemoModel {
    pub message_secret: Seq<u8>,
    pub transport_secret: Seq<u8>,
    pub application_aad: Seq<u8>,
    /// The sealed envelope's wire form.
    pub wire: Seq<u8>,
    /// Lower-case hex of the wire form's BLAKE3 digest.
    pub digest: Seq<char>,
    pub manifest: ManifestModel,
    pub fragments: Seq<(Seq<u8>, Seq<u8>)>,
}

/// `model` is a session for `input`: the message's symbols, coded under the
/// message's symbol-map key, were sealed with identity-bound application data
/// and the demonstrator's transport data; the wire form parses and opens back
/// to that symbol stream; its digest is recorded; and it is split under the
/// default policy.
pub open spec fn session_for(model: DemoModel, input: Seq<u8>) -> bool {
    let symbol_key = blake3_keyed_hash(model.message_secret, symbol_map_label());
    &&& model.message_secret.len() == 32
    &&& model.transport_secret.len() == 32
    &&& model.application_aad == identity_bound_aad(demo_sender(), demo_receiver())
    &&& model.wire.len() == 16 * input.len() + 2 * min_envelope_len()
    &&& parsed_wire(model.wire) is Ok
    &&& opened(
        parsed_wire(model.wire)->Ok_0,
        model.message_secret,
        model.transport_secret,
        model.application_aad,
        demo_transport_aad(),
    ) == Ok::<Seq<u8>, CryptoError>(encoded_symbols(symbol_key, demo_symbols(input)))
    &&& model.digest == hex_text(lower_digits(), blake3_hash(model.wire))
    &&& is_split_of(model.manifest, model.fragments, model.wire)
    &&& model.manifest.data_shards == 12
    &&& model.manifest.parity_shards == 8
}

/// A session's reported digest is the BLAKE3 digest of its wire form in
/// lower-case hex: two digits per digest byte, the high nibble first.
pub proof fn lemma_demo_digest_is_hex(model: DemoModel, input: Seq<u8>)
    requires
        session_for(model, input),
    ensures
        ({
            let digest = blake3_hash(model.wire);
            &&& model.digest.len() == 2 * digest.len()
            &&& forall|k: int| 0 <= k < digest.len() ==> {
                &&& #[trigger] model.digest[2 * k] == lower_digits()[digest[k] as int / 16]
                &&& model.digest[2 * k + 1] == lower_digits()[digest[k] as int % 16]
            }
        }),
{
    lemma_hex_text_digits(lower_digits(), blake3_hash(model.wire));
}

/// The fragments left when the slots in `missing` (numbered from 1) are
/// dropped, in the order they were listed.
pub open spec fn kept_fragments(fragments: Seq<(Seq<u8>, Seq<u8>)>, missing: Seq<usize>) -> Seq<(Seq<u8>, Seq<u8>)>
    decreases fragments.len(),
{
    if fragments.len() == 0 {
        Seq::empty()
    } else {
        let rest = kept_fragments(fragments.drop_last(), missing);
        if missing.contains(fragments.len() as usize) {
            rest
        } else {
            rest.push(fragments.last())
        }
    }
}

/// The kept fragments are enough and rebuild exactly the wire form.
pub open spec fn demo_reconstructs(model: DemoModel, missing: Seq<usize>) -> bool {
    let kept = kept_fragments(model.fragments, missing);
    kept.len() >= model.manifest.data_shards && model.manifest.reconstruct(kept) == Ok::<
        Seq<u8>,
        FragmentError,
    >(model.wire)
}

/// The rebuilt wire form also parses and opens through both layers.
pub open spec fn demo_authenticates(model: DemoModel, missing: Seq<usize>) -> bool {
    &&& demo_reconstructs(model, missing)
    &&& parsed_wire(model.wire) is Ok
    &&& opened(
        parsed_wire(model.wire)->Ok_0,
        model.message_secret,
        model.transport_secret,
        model.application_aad,
        demo_transport_aad(),
    ) is Ok
}

/// One loopback session of the demonstrator. Its secrets live only as long
/// as the session.
pub struct DemoSession {
    message_secret: MessageSecret,
    transport_secret: TransportSecret,
    application_aad: Vec<u8>,
    wire: Vec<u8>,
    outer_wire_digest: String,
    bundle: FragmentBundle,
}

impl View for DemoSession {
    type V = DemoModel;

    closed spec fn view(&self) -> DemoModel {
        DemoModel {
            message_secret: self.message_secret@,
            transport_secret: self.transport_secret@,
            application_aad: self.application_aad@,
            wire: self.wire@,
            digest: self.outer_wire_digest@,
            manifest: self.bundle@.0,
            fragments: self.bundle@.1,
        }
    }
}

/// What one run of a session reports. It holds no input byte, symbol,
/// plaintext, capability or payload digest.
#[derive(Debug, Clone, PartialEq, Eq)]
pub struct DemoReport {
    pub outer_wire_digest: String,
    pub fragments_total: usize,
    pub fragments_required: usize,
    pub fragments_available: usize,
    pub fragments_lost: usize,
    pub reconstruction_matches: bool,
    pub outer_authenticated: bool,
    pub inner_authenticated: bool,
}

/// The symbols of a demonstrator message.
fn demo_symbol_ids(input: &[u8]) -> (symbols: Vec<SymbolId>)
    ensures
        symbols@ == demo_symbols(input@),
{
    let mut symbols: Vec<SymbolId> = Vec::with_capacity(input.len());
    let mut i: usize = 0;
    while i < input.len()
        invariant
            i <= input@.len(),
            symbols@ == demo_symbols(input@.take(i as int)),
        decreases input@.len() - i,
    {
        symbols.push(SymbolId(input[i] as u16 + 1));
        i = i + 1;
        assert(symbols@ =~= demo_symbols(input@.take(i as int)));
    }
    assert(input@.take(i as int) =~= input@);
    symbols
}

impl DemoSession {
    /// Starts a session for a message of 1 to `MAX_INPUT_BYTES` bytes: each
    /// byte `b` becomes symbol `b + 1`; the symbols are coded under a fresh
    /// message secret's symbol-map key, sealed with application data bound to
    /// the demonstrator's sender and receiver contexts and with the
    /// demonstrator's transport data under a fresh transport secret, and the
    /// wire form is digested and split under the default policy.
    pub fn new(input: &[u8]) -> (result: Result<DemoSession, DemoError>)
        ensures
            input@.len() == 0 ==> result == Err::<DemoSession, DemoError>(DemoError::EmptyInput),
            input@.len() > MAX_INPUT_BYTES ==> result == Err::<DemoSession, DemoError>(DemoError::InputTooLong),
            0 < input@.len() <= MAX_INPUT_BYTES ==> (result matches Ok(session) && session_for(session@, input@)),
    {
        if input.len() == 0 {
            return Err(DemoError::EmptyInput);
        }
        if input.len() > MAX_INPUT_BYTES {
            return Err(DemoError::InputTooLong);
        }
        let symbols = demo_symbol_ids(input);
        let message_secret = MessageSecret::random();
        let transport_secret = TransportSecret::random();
        let symbol_key = SymbolMapKey::from_message_secret(&message_secret);
        let symbol_stream = SecureSymbolStream::encode(symbols.as_slice(), &symbol_key);
        let sender = IdentityPublicKey::new([0xA1u8; 32]);
        let receiver = IdentityPublicKey::new([0xB2u8; 32]);
        assert(sender@ =~= demo_sender());
        assert(receiver@ =~= demo_receiver());
        let application_aad = build_identity_bound_application_aad(&sender, &receiver);
        let transport_aad = "sigil-web-demo-transport-v1".as_bytes();
        let envelope = match LayeredEnvelope::seal(
            symbol_stream.as_bytes(),
            &message_secret,
            &transport_secret,
            application_aad.as_slice(),
            transport_aad,
        ) {
            Ok(envelope) => envelope,
            Err(e) => {
                return Err(DemoError::Crypto(e));
            },
        };
        let wire = envelope.to_wire_bytes();
        proof {
            lemma_wire_roundtrip(envelope@);
        }
        let outer_wire_digest = lower_hex(&hash(wire.as_slice()));
        assert(chunks_needed(wire@.len(), 12) * 12 <= usize::MAX) by (nonlinear_arith)
            requires
                wire@.len() <= MAX_WIRE_BYTES,
        ;
        let policy = FragmentPolicy::default();
        let bundle = match FragmentBundle::split(wire.as_slice(), policy) {
            Ok(bundle) => bundle,
            Err(e) => {
                return Err(DemoError::Fragment(e));
            },
        };
        Ok(DemoSession { message_secret, transport_secret, application_aad, wire, outer_wire_digest, bundle })
    }

    /// Drops the fragments in the slots that `missing_slots_csv` lists
    /// (numbered from 1 in fragment order), rebuilds the wire form from the
    /// rest if they are enough, and when it matches parses and opens it
    /// again. A malformed or out-of-range slot list is refused.
    pub fn run(&self, missing_slots_csv: &str) -> (result: Result<DemoReport, DemoError>)
        ensures
            match missing_slots(missing_slots_csv@, self@.manifest.total_shards()) {
                Err(e) => result == Err::<DemoReport, DemoError>(e),
                Ok(missing) => result matches Ok(report) && {
                    &&& report.outer_wire_digest@ == self@.digest
                    &&& report.fragments_total == self@.manifest.total_shards()
                    &&& report.fragments_required == self@.manifest.data_shards
                    &&& report.fragments_available == kept_fragments(self@.fragments, missing).len()
                    &&& report.fragments_lost == missing.len()
                    &&& report.reconstruction_matches == demo_reconstructs(self@, missing)
                    &&& report.outer_authenticated == demo_authenticates(self@, missing)
                    &&& report.inner_authenticated == demo_authenticates(self@, missing)
                },
            },
    {
        let manifest = self.bundle.manifest();
        let total = manifest.total_fragments();
        let required = manifest.required_fragments();
        let missing = match parse_missing_slots(missing_slots_csv, total) {
            Ok(missing) => missing,
            Err(e) => {
                return Err(e);
            },
        };
        let fragments = self.bundle.fragments();
        let ghost views = fragment_views(fragments@);
        let mut available: Vec<OpaqueFragment> = Vec::new();
        let mut i: usize = 0;
        while i < fragments.len()
            invariant
                i <= fragments@.len(),
                views == fragment_views(fragments@),
                fragment_views(available@) == kept_fragments(views.take(i as int), missing@),
            decreases fragments@.len() - i,
        {
            let ghost taken = views.take(i as int + 1);
            assert(taken.drop_last() =~= views.take(i as int));
            if !holds_slot(&missing, i + 1) {
                available.push(fragments[i].duplicate());
                assert(fragment_views(available@) =~= kept_fragments(views.take(i as int), missing@).push(
                    views[i as int],
                ));
            }
            i = i + 1;
        }
        assert(views.take(i as int) =~= views);
        let mut reconstruction_matches = false;
        let mut authenticated = false;
        if available.len() >= required {
            match manifest.reconstruct(available.as_slice()) {
                Ok(reconstructed) => {
                    reconstruction_matches = bytes_equal(reconstructed.as_slice(), self.wire.as_slice());
                    if reconstruction_matches {
                        match LayeredEnvelope::from_wire_bytes(reconstructed.as_slice()) {
                            Ok(received) => {
                                match received.open(
                                    &self.message_secret,
                                    &self.transport_secret,
                                    self.application_aad.as_slice(),
                                    "sigil-web-demo-transport-v1".as_bytes(),
                                ) {
                                    Ok(mut opened) => {
                                        authenticated = true;
                                        wipe_bytes(&mut opened);
                                    },
                                    Err(_) => {},
                                }
                            },
                            Err(_) => {},
                        }
                    }
                },
                Err(_) => {},
            }
        }
        Ok(
            DemoReport {
                outer_wire_digest: self.outer_wire_digest.clone(),
                fragments_total: total,
                fragments_required: required,
                fragments_available: available.len(),
                fragments_lost: missing.len(),
                reconstruction_matches,
                outer_authenticated: authenticated,
                inner_authenticated: authenticated,
            },
        )
    }
}

/// Adding an item keeps a slot list free of repeats and within 1 to `total`.
proof fn lemma_add_item_valid(slots: Result<Seq<usize>, DemoError>, item: Seq<char>, total: nat)
    requires
        slots matches Ok(found) ==> found.no_duplicates() && forall|k: int|
            0 <= k < found.len() ==> 1 <= #[trigger] found[k] <= total,
    ensures
        add_item(slots, item, total) matches Ok(found) ==> found.no_duplicates() && forall|k: int|
            0 <= k < found.len() ==> 1 <= #[trigger] found[k] <= total,
{
}

/// The items completed so far name each slot once, within 1 to `total`.
proof fn lemma_scan_valid(text: Seq<char>, total: nat)
    ensures
        scan_items(text, total).0 matches Ok(found) ==> found.no_duplicates() && forall|k: int|
            0 <= k < found.len() ==> 1 <= #[trigger] found[k] <= total,
    decreases text.len(),
{
    if text.len() > 0 {
        lemma_scan_valid(text.drop_last(), total);
        let (done, item) = scan_items(text.drop_last(), total);
        lemma_add_item_valid(done, item, total);
    }
}

/// A missing-slot list names each slot once, each from 1 to `total`.
pub proof fn lemma_missing_slots_valid(text: Seq<char>, total: nat)
    ensures
        missing_slots(text, total) matches Ok(found) ==> found.no_duplicates() && forall|k: int|
            0 <= k < found.len() ==> 1 <= #[trigger] found[k] <= total,
{
    lemma_scan_valid(text, total);
    let (done, item) = scan_items(text, total);
    lemma_add_item_valid(done, item, total);
}

/// The slots among 1 to `n` that `missing` names, in increasing order.
spec fn dropped_slots(n: nat, missing: Seq<usize>) -> Seq<usize>
    decreases n,
{
    if n == 0 {
        Seq::empty()
    } else if missing.contains(n as usize) {
        dropped_slots((n - 1) as nat, missing).push(n as usize)
    } else {
        dropped_slots((n - 1) as nat, missing)
    }
}

/// The dropped slots are distinct, lie within 1 to `n`, are named by
/// `missing`, and together with the kept fragments account for every
/// fragment.
proof fn lemma_dropped_slots(fragments: Seq<(Seq<u8>, Seq<u8>)>, missing: Seq<usize>)
    requires
        fragments.len() <= usize::MAX,
    ensures
        dropped_slots(fragments.len(), missing).no_duplicates(),
        forall|k: int| 0 <= k < dropped_slots(fragments.len(), missing).len() ==> {
            &&& 1 <= #[trigger] dropped_slots(fragments.len(), missing)[k] <= fragments.len()
            &&& missing.contains(dropped_slots(fragments.len(), missing)[k])
        },
        kept_fragments(fragments, missing).len() + dropped_slots(fragments.len(), missing).len() == fragments.len(),
    decreases fragments.len(),
{
    if fragments.len() > 0 {
        lemma_dropped_slots(fragments.drop_last(), missing);
    }
}

/// Every slot from 1 to `n` that `missing` names is dropped.
proof fn lemma_named_slots_dropped(n: nat, missing: Seq<usize>, slot: usize)
    requires
        n <= usize::MAX,
        1 <= slot <= n,
        missing.contains(slot),
    ensures
        dropped_slots(n, missing).contains(slot),
    decreases n,
{
    if slot < n {
        lemma_named_slots_dropped((n - 1) as nat, missing, slot);
        let before = dropped_slots((n - 1) as nat, missing);
        let k = choose|k: int| 0 <= k < before.len() && #[trigger] before[k] == slot;
        if missing.contains(n as usize) {
            assert(dropped_slots(n, missing)[k] == slot);
        }
    } else {
        assert(dropped_slots(n, missing).last() == slot);
    }
}

/// Dropping the distinct slots `missing` keeps at least all the other
/// fragments, and exactly the others when every named slot exists.
pub proof fn lemma_kept_count(fragments: Seq<(Seq<u8>, Seq<u8>)>, missing: Seq<usize>)
    requires
        fragments.len() <= usize::MAX,
        missing.no_duplicates(),
    ensures
        kept_fragments(fragments, missing).len() + missing.len() >= fragments.len(),
        (forall|k: int| 0 <= k < missing.len() ==> 1 <= #[trigger] missing[k] <= fragments.len())
            ==> kept_fragments(fragments, missing).len() + missing.len() == fragments.len(),
{
    let dropped = dropped_slots(fragments.len(), missing);
    lemma_dropped_slots(fragments, missing);
    crate::seqs::lemma_pigeonhole(dropped, missing);
    if forall|k: int| 0 <= k < missing.len() ==> 1 <= #[trigger] missing[k] <= fragments.len() {
        assert forall|k: int| 0 <= k < missing.len() implies dropped.contains(#[trigger] missing[k]) by {
            assert(missing.contains(missing[k]));
            lemma_named_slots_dropped(fragments.len(), missing, missing[k]);
        }
        crate::seqs::lemma_pigeonhole(missing, dropped);
    }
}

/// The kept fragments are distinct fragments of the full list.
proof fn lemma_kept_selected(fragments: Seq<(Seq<u8>, Seq<u8>)>, missing: Seq<usize>)
    requires
        fragments.no_duplicates(),
    ensures
        kept_fragments(fragments, missing).no_duplicates(),
        forall|k: int| 0 <= k < kept_fragments(fragments, missing).len() ==> fragments.contains(
            #[trigger] kept_fragments(fragments, missing)[k],
        ),
    decreases fragments.len(),
{
    if fragments.len() > 0 {
        let rest = fragments.drop_last();
        lemma_kept_selected(rest, missing);
        let kept = kept_fragments(rest, missing);
        assert forall|k: int| 0 <= k < kept.len() implies fragments.contains(#[trigger] kept[k]) by {
            let j = choose|j: int| 0 <= j < rest.len() && rest[j] == kept[k];
            assert(fragments[j] == kept[k]);
        }
        if !missing.contains(fragments.len() as usize) {
            assert(!kept.contains(fragments.last())) by {
                if kept.contains(fragments.last()) {
                    let k = choose|k: int| 0 <= k < kept.len() && kept[k] == fragments.last();
                    let j = choose|j: int| 0 <= j < rest.len() && rest[j] == kept[k];
                    assert(fragments[j] == fragments[fragments.len() - 1]);
                }
            }
            assert forall|k: int| 0 <= k < kept.push(fragments.last()).len() implies fragments.contains(
                #[trigger] kept.push(fragments.last())[k],
            ) by {
                if k == kept.len() {
                    assert(fragments[fragments.len() - 1] == fragments.last());
                }
            }
        }
    }
}

/// The fragments of a split are distinct, one per coding position.
proof fn lemma_split_fragments(manifest: ManifestModel, fragments: Seq<(Seq<u8>, Seq<u8>)>, wire: Seq<u8>)
    requires
        is_split_of(manifest, fragments, wire),
    ensures
        fragments.no_duplicates(),
        fragments.len() == manifest.total_shards(),
{
    let padded = choose|padded: Seq<u8>| crate::fragmentation::split_with(manifest, fragments, wire, padded);
    let input = crate::fragmentation::shard_input(
        padded,
        manifest.data_shards,
        manifest.parity_shards,
        manifest.shard_len,
    );
    let coded = crate::erasure::erasure_encoded(manifest.data_shards, manifest.parity_shards, input);
    let listed = crate::fragmentation::coded_fragments(manifest.capabilities, coded);
    assert(listed.no_duplicates()) by {
        assert forall|a: int, b: int| 0 <= a < listed.len() && 0 <= b < listed.len() && a != b implies listed[a]
            != listed[b] by {
            assert(manifest.capabilities[a] != manifest.capabilities[b]);
        }
    }
    crate::seqs::lemma_permutation_no_duplicates(fragments, listed);
    crate::seqs::lemma_permutation_len(fragments, listed);
}

/// A demonstrator session survives the loss of up to `parity_shards` of its
/// fragments: whatever distinct slots are dropped, as long as there are no
/// more of them than parity shards, the kept fragments rebuild exactly the
/// wire form, which parses and opens through both layers.
pub proof fn lemma_demo_survives_losses(model: DemoModel, input: Seq<u8>, missing: Seq<usize>)
    requires
        session_for(model, input),
        missing.no_duplicates(),
        missing.len() <= model.manifest.parity_shards,
    ensures
        demo_reconstructs(model, missing),
        demo_authenticates(model, missing),
{
    lemma_split_fragments(model.manifest, model.fragments, model.wire);
    lemma_kept_count(model.fragments, missing);
    lemma_kept_selected(model.fragments, missing);
    let kept = kept_fragments(model.fragments, missing);
    assert(crate::fragmentation::is_selection(model.fragments, kept, model.manifest.data_shards));
    crate::fragmentation::lemma_threshold_fragments_reconstruct(model.manifest, model.fragments, model.wire, kept);
}

/// Dropping more distinct existing slots than there are parity shards leaves
/// too few fragments: the session does not rebuild the wire form.
pub proof fn lemma_demo_fails_beyond_parity(model: DemoModel, input: Seq<u8>, missing: Seq<usize>)
    requires
        session_for(model, input),
        missing.no_duplicates(),
        forall|k: int| 0 <= k < missing.len() ==> 1 <= #[trigger] missing[k] <= model.manifest.total_shards(),
        missing.len() > model.manifest.parity_shards,
    ensures
        !demo_reconstructs(model, missing),
        !demo_authenticates(model, missing),
        kept_fragments(model.fragments, missing).len() == model.manifest.total_shards() - missing.len(),
{
    lemma_split_fragments(model.manifest, model.fragments, model.wire);
    lemma_kept_count(model.fragments, missing);
}

/// What a run of a session reports for a slot list that parses: the kept and
/// the dropped fragments add up to all of them, and the wire form is rebuilt,
/// and then authenticated, exactly when no more fragments are dropped than
/// there are parity shards.
pub proof fn lemma_demo_run_outcome(model: DemoModel, input: Seq<u8>, text: Seq<char>)
    requires
        session_for(model, input),
        missing_slots(text, model.manifest.total_shards()) is Ok,
    ensures
        ({
            let missing = missing_slots(text, model.manifest.total_shards())->Ok_0;
            &&& kept_fragments(model.fragments, missing).len() + missing.len() == model.manifest.total_shards()
            &&& demo_reconstructs(model, missing) <==> missing.len() <= model.manifest.parity_shards
            &&& demo_authenticates(model, missing) <==> demo_reconstructs(model, missing)
        }),
{
    let missing = missing_slots(text, model.manifest.total_shards())->Ok_0;
    lemma_missing_slots_valid(text, model.manifest.total_shards());
    lemma_split_fragments(model.manifest, model.fragments, model.wire);
    lemma_kept_count(model.fragments, missing);
    if missing.len() <= model.manifest.parity_shards {
        lemma_demo_survives_losses(model, input, missing);
    } else {
        lemma_demo_fails_beyond_parity(model, input, missing);
    }
}

} // verus!
