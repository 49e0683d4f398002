use vstd::prelude::*;
use vstd::utf8::encode_utf8;

use crate::bytes::{append_bytes, bytes_equal};
use crate::composer::SymbolId;
use crate::crypto::MessageSecret;
use crate::digest::{blake3_keyed_hash, keyed_hash};
use crate::text::{decimal, push_decimal};
use crate::wipe::{wipe_array, wipe_bytes};

verus! {

broadcast use {vstd::seq_lib::group_seq_properties, vstd::seq::group_seq_axioms};

/// Length of one symbol code in a secure symbol stream.
pub const SYMBOL_CODE_LEN: usize = 16;

/// Label under which the symbol-map key is derived from a message secret.
pub open spec fn symbol_map_label() -> Seq<u8> {
    encode_utf8("sigil-symbol-map-v1"@)
}

/// Domain label hashed in front of every symbol.
pub open spec fn symbol_code_label() -> Seq<u8> {
    encode_utf8("sigil-symbol-code-v1"@)
}

/// The big-endian bytes of a symbol's number.
pub open spec fn symbol_bytes(symbol: SymbolId) -> Seq<u8> {
    seq![(symbol.0 / 256) as u8, (symbol.0 % 256) as u8]
}

/// The code of `symbol` under `key`: the first sixteen bytes of the BLAKE3
/// keyed hash of the code label followed by the symbol's big-endian number.
pub open spec fn symbol_code(key: Seq<u8>, symbol: SymbolId) -> Seq<u8> {
    let digest = blake3_keyed_hash(key, symbol_code_label() + symbol_bytes(symbol));
    Seq::new(SYMBOL_CODE_LEN as nat, |i: int| digest[i])
}

/// The codes of `symbols` under `key`, one after another.
pub open spec fn encoded_symbols(key: Seq<u8>, symbols: Seq<SymbolId>) -> Seq<u8>
    decreases symbols.len(),
{
    if symbols.len() == 0 {
        Seq::empty()
    } else {
        encoded_symbols(key, symbols.drop_last()) + symbol_code(key, symbols.last())
    }
}

/// The first symbol of `alphabet` whose code under `key` is `code`.
pub open spec fn first_match(key: Seq<u8>, alphabet: Seq<SymbolId>, code: Seq<u8>) -> Option<SymbolId>
    decreases alphabet.len(),
{
    if alphabet.len() == 0 {
        None
    } else if symbol_code(key, alphabet[0]) == code {
        Some(alphabet[0])
    } else {
        first_match(key, alphabet.drop_first(), code)
    }
}

/// Why a symbol stream could not be read.
#[derive(Debug, Clone, Copy, PartialEq, Eq, Structural)]
pub enum SymbolStreamError {
    MalformedStream,
    UnknownSymbolCode,
    InvalidIndex,
}

/// The human-readable text of a symbol stream error.
pub open spec fn symbol_stream_error_text(error: SymbolStreamError) -> Seq<char> {
    match error {
        SymbolStreamError::MalformedStream => "malformed secure symbol stream"@,
        SymbolStreamError::UnknownSymbolCode => "unknown symbol code"@,
        SymbolStreamError::InvalidIndex => "invalid symbol index"@,
    }
}

impl SymbolStreamError {
    /// The error as text.
    pub fn message(&self) -> (text: String)
        ensures
            text@ == symbol_stream_error_text(*self),
    {
        match self {
            SymbolStreamError::MalformedStream => String::from_str("malformed secure symbol stream"),
            SymbolStreamError::UnknownSymbolCode => String::from_str("unknown symbol code"),
            SymbolStreamError::InvalidIndex => String::from_str("invalid symbol index"),
        }
    }
}

/// What `decode_symbol_at` gives for position `index` of the stream `bytes`:
/// `InvalidIndex` past the last code, else the first alphabet symbol with
/// that code, else `UnknownSymbolCode`.
pub open spec fn decoded_at(bytes: Seq<u8>, index: int, alphabet: Seq<SymbolId>, key: Seq<u8>) -> Result<
    SymbolId,
    SymbolStreamError,
> {
    let n = SYMBOL_CODE_LEN as int;
    if index < 0 || index >= bytes.len() as int / n {
        Err(SymbolStreamError::InvalidIndex)
    } else {
        match first_match(key, alphabet, bytes.subrange(index * n, index * n + n)) {
            Some(symbol) => Ok(symbol),
            None => Err(SymbolStreamError::UnknownSymbolCode),
        }
    }
}

/// The per-message key that maps symbols to opaque codes.
pub struct SymbolMapKey([u8; 32]);

impl View for SymbolMapKey {
    type V = Seq<u8>;

    closed spec fn view(&self) -> Seq<u8> {
        self.0@
    }
}

impl SymbolMapKey {
    /// The symbol-map key of a message: the message secret's subkey for the
    /// symbol-map label.
    pub fn from_message_secret(message_secret: &MessageSecret) -> (key: Self)
        ensures
            key@ == blake3_keyed_hash(message_secret@, symbol_map_label()),
    {
        SymbolMapKey(message_secret.derive_subkey("sigil-symbol-map-v1".as_bytes()))
    }

    /// The code of `symbol` under this key.
    fn code_for(&self, symbol: SymbolId) -> (code: [u8; SYMBOL_CODE_LEN])
        ensures
            code@ == symbol_code(self@, symbol),
            forall|i: int| 0 <= i < SYMBOL_CODE_LEN ==> #[trigger] code@[i] == blake3_keyed_hash(
                self@,
                symbol_code_label() + seq![(symbol.0 / 256) as u8, (symbol.0 % 256) as u8],
            )[i],
    {
        let mut input: Vec<u8> = Vec::new();
        append_bytes(&mut input, "sigil-symbol-code-v1".as_bytes());
        input.push((symbol.0 / 256) as u8);
        input.push((symbol.0 % 256) as u8);
        assert(input@ =~= symbol_code_label() + symbol_bytes(symbol));
        let mut digest = keyed_hash(&self.0, input.as_slice());
        let mut code = [0u8; SYMBOL_CODE_LEN];
        let mut i: usize = 0;
        while i < SYMBOL_CODE_LEN
            invariant
                i <= SYMBOL_CODE_LEN,
                digest@.len() == 32,
                forall|k: int| 0 <= k < i ==> code@[k] == digest@[k],
            decreases SYMBOL_CODE_LEN - i,
        {
            code[i] = digest[i];
            i = i + 1;
        }
        assert(code@ =~= symbol_code(self@, symbol));
        wipe_array(&mut digest);
        code
    }

    /// The redacted debug text: the key never appears in it.
    pub fn debug_text(&self) -> (text: String)
        ensures
            text@ == "SymbolMapKey([REDACTED])"@,
    {
        String::from_str("SymbolMapKey([REDACTED])")
    }
}

impl Drop for SymbolMapKey {
    /// Wipes the key bytes.
    fn drop(&mut self)
        opens_invariants none
        no_unwind
    {
        wipe_array(&mut self.0);
    }
}

/// A message as a sequence of opaque symbol codes, with no text encoding.
pub struct SecureSymbolStream {
    bytes: Vec<u8>,
}

impl View for SecureSymbolStream {
    type V = Seq<u8>;

    closed spec fn view(&self) -> Seq<u8> {
        self.bytes@
    }
}

/// The debug text of a stream of `count` symbols: the count is shown, the
/// codes are not.
pub open spec fn stream_debug(count: nat) -> Seq<char> {
    "SecureSymbolStream { symbol_count: "@ + decimal(count) + ", bytes: \"[REDACTED]\" }"@
}

impl SecureSymbolStream {
    /// A stream holds whole codes only.
    #[verifier::type_invariant]
    spec fn whole_codes(self) -> bool {
        self.bytes@.len() % (SYMBOL_CODE_LEN as nat) == 0
    }

    /// The codes of `symbols` under `key`, in order.
    pub fn encode(symbols: &[SymbolId], key: &SymbolMapKey) -> (stream: Self)
        requires
            symbols@.len() * SYMBOL_CODE_LEN <= usize::MAX,
        ensures
            stream@ == encoded_symbols(key@, symbols@),
            stream@.len() == symbols@.len() * SYMBOL_CODE_LEN,
    {
        let mut bytes: Vec<u8> = Vec::with_capacity(symbols.len() * SYMBOL_CODE_LEN);
        let mut i: usize = 0;
        while i < symbols.len()
            invariant
                i <= symbols@.len(),
                bytes@ == encoded_symbols(key@, symbols@.take(i as int)),
                bytes@.len() == i * SYMBOL_CODE_LEN,
            decreases symbols@.len() - i,
        {
            let code = key.code_for(symbols[i]);
            append_bytes(&mut bytes, &code);
            assert(symbols@.take(i as int + 1).drop_last() =~= symbols@.take(i as int));
            i = i + 1;
        }
        assert(symbols@.take(i as int) =~= symbols@);
        assert(bytes@.len() % (SYMBOL_CODE_LEN as nat) == 0) by (nonlinear_arith)
            requires
                bytes@.len() == i * SYMBOL_CODE_LEN,
        ;
        SecureSymbolStream { bytes }
    }

    /// A stream read back from its bytes; `MalformedStream` unless they are
    /// whole codes.
    pub fn from_encoded(bytes: Vec<u8>) -> (result: Result<Self, SymbolStreamError>)
        ensures
            match result {
                Ok(stream) => bytes@.len() % (SYMBOL_CODE_LEN as nat) == 0 && stream@ == bytes@,
                Err(e) => bytes@.len() % (SYMBOL_CODE_LEN as nat) != 0 && e == SymbolStreamError::MalformedStream,
            },
    {
        if bytes.len() % SYMBOL_CODE_LEN != 0 {
            return Err(SymbolStreamError::MalformedStream);
        }
        Ok(SecureSymbolStream { bytes })
    }

    /// Number of codes in the stream.
    pub fn symbol_count(&self) -> (count: usize)
        ensures
            count == self@.len() / (SYMBOL_CODE_LEN as nat),
    {
        self.bytes.len() / SYMBOL_CODE_LEN
    }

    /// Whether the stream holds no code.
    pub fn is_empty(&self) -> (empty: bool)
        ensures
            empty == (self@.len() == 0),
    {
        self.bytes.len() == 0
    }

    /// The stream's bytes.
    pub fn as_bytes(&self) -> (bytes: &[u8])
        ensures
            bytes@ == self@,
    {
        self.bytes.as_slice()
    }

    /// The symbol at position `index`: the first symbol of `alphabet` whose
    /// code under `key` is the code stored there.
    pub fn decode_symbol_at(&self, index: usize, alphabet: &[SymbolId], key: &SymbolMapKey) -> (result: Result<
        SymbolId,
        SymbolStreamError,
    >)
        ensures
            result == decoded_at(self@, index as int, alphabet@, key@),
    {
        proof {
            use_type_invariant(self);
        }
        if index >= self.symbol_count() {
            return Err(SymbolStreamError::InvalidIndex);
        }
        assert(index * SYMBOL_CODE_LEN + SYMBOL_CODE_LEN <= self@.len()) by (nonlinear_arith)
            requires
                index < self@.len() / (SYMBOL_CODE_LEN as nat),
        ;
        let length = self.bytes.len();
        assert(length == self@.len());
        let offset = index * SYMBOL_CODE_LEN;
        let encoded = vstd::slice::slice_subrange(self.bytes.as_slice(), offset, offset + SYMBOL_CODE_LEN);
        let ghost code = encoded@;
        assert(code == self@.subrange(index * SYMBOL_CODE_LEN, index * SYMBOL_CODE_LEN + SYMBOL_CODE_LEN));
        assert(!(index >= self@.len() as int / (SYMBOL_CODE_LEN as int)));
        let mut i: usize = 0;
        while i < alphabet.len()
            invariant
                i <= alphabet@.len(),
                encoded@ == code,
                code == self@.subrange(index * SYMBOL_CODE_LEN, index * SYMBOL_CODE_LEN + SYMBOL_CODE_LEN),
                !(index >= self@.len() as int / (SYMBOL_CODE_LEN as int)),
                first_match(key@, alphabet@, code) == first_match(key@, alphabet@.skip(i as int), code),
            decreases alphabet@.len() - i,
        {
            let candidate = alphabet[i];
            let candidate_code = key.code_for(candidate);
            assert(alphabet@.skip(i as int)[0] == candidate);
            assert(alphabet@.skip(i as int).drop_first() =~= alphabet@.skip(i as int + 1));
            if bytes_equal(&candidate_code, encoded) {
                assert(first_match(key@, alphabet@.skip(i as int), code) == Some(candidate));
                return Ok(candidate);
            }
            i = i + 1;
        }
        assert(alphabet@.skip(i as int).len() == 0);
        Err(SymbolStreamError::UnknownSymbolCode)
    }

    /// Overwrites the stream's bytes with zeros and empties it.
    pub fn clear(&mut self)
        ensures
            final(self)@ == Seq::<u8>::empty(),
    {
        wipe_bytes(&mut self.bytes);
    }

    /// The redacted debug text: the symbol count is shown, the codes never
    /// are.
    pub fn debug_text(&self) -> (text: String)
        ensures
            text@ == stream_debug(self@.len() / (SYMBOL_CODE_LEN as nat)),
    {
        let mut text = String::from_str("SecureSymbolStream { symbol_count: ");
        push_decimal(&mut text, self.symbol_count());
        text.append(", bytes: \"[REDACTED]\" }");
        text
    }
}

impl Drop for SecureSymbolStream {
    /// Wipes the stream's bytes.
    fn drop(&mut self)
        opens_invariants none
        no_unwind
    {
        wipe_bytes(&mut self.bytes);
    }
}

/// The symbol bytes that are hashed are the symbol's number in big-endian
/// order: two bytes, high then low, that spell the number back. So different
/// symbols feed different inputs to the keyed hash.
pub proof fn lemma_symbol_bytes_spell_the_number(symbol: SymbolId, other: SymbolId)
    ensures
        symbol_bytes(symbol).len() == 2,
        symbol_bytes(symbol)[0] as nat * 256 + symbol_bytes(symbol)[1] as nat == symbol.0 as nat,
        symbol != other ==> symbol_code_label() + symbol_bytes(symbol) != symbol_code_label() + symbol_bytes(other),
{
    if symbol != other {
        let a = symbol_code_label() + symbol_bytes(symbol);
        let b = symbol_code_label() + symbol_bytes(other);
        let n = symbol_code_label().len() as int;
        if a == b {
            assert(a[n] == symbol_bytes(symbol)[0] && b[n] == symbol_bytes(other)[0]);
            assert(a[n + 1] == symbol_bytes(symbol)[1] && b[n + 1] == symbol_bytes(other)[1]);
        }
    }
}

/// In an encoded stream, the code at position `i` is the code of the `i`-th
/// symbol.
pub proof fn lemma_encoded_code_at(key: Seq<u8>, symbols: Seq<SymbolId>, i: int)
    requires
        0 <= i < symbols.len(),
    ensures
        encoded_symbols(key, symbols).len() == symbols.len() * SYMBOL_CODE_LEN,
        encoded_symbols(key, symbols).subrange(i * 16, i * 16 + 16) == symbol_code(key, symbols[i]),
    decreases symbols.len(),
{
    let n = symbols.len() - 1;
    lemma_encoded_len(key, symbols.drop_last());
    if i < n {
        lemma_encoded_code_at(key, symbols.drop_last(), i);
        assert(encoded_symbols(key, symbols).subrange(i * 16, i * 16 + 16) =~= encoded_symbols(
            key,
            symbols.drop_last(),
        ).subrange(i * 16, i * 16 + 16));
    } else {
        assert(encoded_symbols(key, symbols).subrange(i * 16, i * 16 + 16) =~= symbol_code(key, symbols[i]));
    }
}

/// An encoded stream holds sixteen bytes per symbol.
pub proof fn lemma_encoded_len(key: Seq<u8>, symbols: Seq<SymbolId>)
    ensures
        encoded_symbols(key, symbols).len() == symbols.len() * SYMBOL_CODE_LEN,
    decreases symbols.len(),
{
    if symbols.len() > 0 {
        lemma_encoded_len(key, symbols.drop_last());
    }
}

/// `first_match` finds a symbol whose code is the one given, and it finds
/// `symbol` when `symbol` is in the alphabet and no other alphabet symbol has
/// its code.
proof fn lemma_first_match_unique(key: Seq<u8>, alphabet: Seq<SymbolId>, symbol: SymbolId)
    requires
        alphabet.contains(symbol),
        forall|other: SymbolId| #[trigger] alphabet.contains(other) && symbol_code(key, other) == symbol_code(key, symbol) ==> other
            == symbol,
    ensures
        first_match(key, alphabet, symbol_code(key, symbol)) == Some(symbol),
    decreases alphabet.len(),
{
    if alphabet[0] != symbol {
        assert(alphabet.contains(alphabet[0]));
        let j = choose|j: int| 0 <= j < alphabet.len() && alphabet[j] == symbol;
        assert(alphabet.drop_first()[j - 1] == symbol);
        assert forall|other: SymbolId| #[trigger] alphabet.drop_first().contains(other) implies alphabet.contains(other) by {
            let k = choose|k: int| 0 <= k < alphabet.drop_first().len() && alphabet.drop_first()[k] == other;
            assert(alphabet[k + 1] == other);
        }
        lemma_first_match_unique(key, alphabet.drop_first(), symbol);
    }
}

/// Decoding inverts encoding: in the stream of `symbols` under `key`,
/// position `i` decodes to `symbols[i]` whenever that symbol is in the
/// alphabet and no other alphabet symbol shares its code.
pub proof fn lemma_decode_inverts_encode(key: Seq<u8>, symbols: Seq<SymbolId>, alphabet: Seq<SymbolId>, i: int)
    requires
        0 <= i < symbols.len(),
        alphabet.contains(symbols[i]),
        forall|other: SymbolId| #[trigger] alphabet.contains(other) && symbol_code(key, other) == symbol_code(key, symbols[i])
            ==> other == symbols[i],
    ensures
        decoded_at(encoded_symbols(key, symbols), i, alphabet, key) == Ok::<SymbolId, SymbolStreamError>(symbols[i]),
{
    let bytes = encoded_symbols(key, symbols);
    lemma_encoded_code_at(key, symbols, i);
    assert(bytes.len() / 16 == symbols.len()) by (nonlinear_arith)
        requires
            bytes.len() == symbols.len() * 16,
    ;
    lemma_first_match_unique(key, alphabet, symbols[i]);
}

/// Encoding is done symbol by symbol: the stream of `first` followed by
/// `second` is the stream of `first` followed by the stream of `second`.
pub proof fn lemma_encode_concat(key: Seq<u8>, first: Seq<SymbolId>, second: Seq<SymbolId>)
    ensures
        encoded_symbols(key, first + second) == encoded_symbols(key, first) + encoded_symbols(key, second),
    decreases second.len(),
{
    if second.len() == 0 {
        assert(first + second =~= first);
        assert(encoded_symbols(key, first) + encoded_symbols(key, second) =~= encoded_symbols(key, first));
    } else {
        lemma_encode_concat(key, first, second.drop_last());
        assert((first + second).drop_last() =~= first + second.drop_last());
        assert((first + second).last() == second.last());
        assert(encoded_symbols(key, first + second) =~= encoded_symbols(key, first) + encoded_symbols(
            key,
            second,
        ));
    }
}

} // verus!
