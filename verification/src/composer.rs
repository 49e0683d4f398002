use vstd::prelude::*;

use crate::entropy::{random_u64, shuffle};
use crate::seqs::{lemma_permutation_contains, lemma_pigeonhole};
use crate::text::{decimal, push_decimal};
use crate::wipe::{wipe_words, zero_words};

verus! {

broadcast use {vstd::seq_lib::group_seq_properties, vstd::seq::group_seq_axioms};

/// One symbol of the composition alphabet.
#[derive(Debug, Clone, Copy, PartialEq, Eq, Structural, Hash, PartialOrd, Ord)]
pub struct SymbolId(pub u16);

/// A session-scoped random token standing for one symbol during composition.
#[derive(Debug, Clone, Copy, PartialEq, Eq, Structural, Hash)]
pub struct EphemeralToken(u64);

impl View for EphemeralToken {
    type V = u64;

    closed spec fn view(&self) -> u64 {
        self.0
    }
}

impl EphemeralToken {
    /// The token's value.
    pub fn expose(self) -> (value: u64)
        ensures
            value == self@,
    {
        self.0
    }
}

/// Why a layout could not be built or a slot could not be resolved.
#[derive(Debug, Clone, PartialEq, Eq, Structural)]
pub enum ComposerError {
    EmptyAlphabet,
    DuplicateSymbol(SymbolId),
    InvalidSlot(usize),
}

/// The human-readable text of a composer error.
pub open spec fn composer_error_text(error: ComposerError) -> Seq<char> {
    match error {
        ComposerError::EmptyAlphabet => "symbol set cannot be empty"@,
        ComposerError::DuplicateSymbol(symbol) => "duplicate symbol id "@ + decimal(symbol.0 as nat),
        ComposerError::InvalidSlot(slot) => "invalid key slot "@ + decimal(slot as nat),
    }
}

impl ComposerError {
    /// The error as text, naming the symbol or slot at fault.
    pub fn message(&self) -> (text: String)
        ensures
            text@ == composer_error_text(*self),
    {
        match self {
            ComposerError::EmptyAlphabet => String::from_str("symbol set cannot be empty"),
            ComposerError::DuplicateSymbol(symbol) => {
                let mut text = String::from_str("duplicate symbol id ");
                push_decimal(&mut text, symbol.0 as usize);
                text
            },
            ComposerError::InvalidSlot(slot) => {
                let mut text = String::from_str("invalid key slot ");
                push_decimal(&mut text, *slot);
                text
            },
        }
    }
}

/// How many random draws a token gets before the fallback scan. A collision
/// among 64-bit random values is rare, so the scan only guarantees termination.
const RANDOM_DRAWS: usize = 64;

/// `symbols[i]` already occurs before position `i`.
pub open spec fn repeats_at(symbols: Seq<SymbolId>, i: int) -> bool {
    symbols.take(i).contains(symbols[i])
}

/// A layout session as plain values: (slot order, token of each symbol in
/// alphabet order).
pub type LayoutView = (Seq<SymbolId>, Seq<(SymbolId, u64)>);

/// A layout for `symbols`: the slots hold each symbol exactly once in some
/// order, and each symbol, in alphabet order, has its own nonzero token.
pub open spec fn is_layout_of(layout: LayoutView, symbols: Seq<SymbolId>) -> bool {
    &&& symbols.len() > 0
    &&& symbols.no_duplicates()
    &&& layout.0.to_multiset() == symbols.to_multiset()
    &&& layout.1.len() == symbols.len()
    &&& forall|i: int| 0 <= i < symbols.len() ==> (#[trigger] layout.1[i]).0 == symbols[i]
    &&& forall|i: int| 0 <= i < layout.1.len() ==> (#[trigger] layout.1[i]).1 != 0
    &&& forall|i: int, j: int| 0 <= i < j < layout.1.len() ==> layout.1[i].1 != layout.1[j].1
}

/// The token that `token_for_symbol` finds: the first entry for `symbol`.
pub open spec fn token_of(tokens: Seq<(SymbolId, u64)>, symbol: SymbolId) -> Option<u64>
    decreases tokens.len(),
{
    if tokens.len() == 0 {
        None
    } else if tokens[0].0 == symbol {
        Some(tokens[0].1)
    } else {
        token_of(tokens.drop_first(), symbol)
    }
}

/// A randomized keyboard layout for one composition session: which symbol
/// sits in each key slot, and the ephemeral token of each symbol.
#[derive(Debug)]
pub struct LayoutSession {
    slots: Vec<SymbolId>,
    token_symbols: Vec<SymbolId>,
    token_values: Vec<u64>,
}

impl View for LayoutSession {
    type V = LayoutView;

    closed spec fn view(&self) -> LayoutView {
        (
            self.slots@,
            Seq::new(self.token_symbols@.len(), |i: int| (self.token_symbols@[i], self.token_values@[i])),
        )
    }
}

/// The value `i` steps above `start`.
spec fn counted_from(start: u64, i: int) -> u64 {
    (start + i) as u64
}

/// A token that is nonzero and not in `used`: a random one, or after
/// `RANDOM_DRAWS` collisions the first free value counting up from a fresh
/// random start.
fn fresh_token(used: &Vec<u64>) -> (token: u64)
    requires
        used@.len() <= 0x10000,
    ensures
        token != 0,
        !used@.contains(token),
{
    let mut attempt: usize = 0;
    while attempt < RANDOM_DRAWS
        invariant
            attempt <= RANDOM_DRAWS,
        decreases RANDOM_DRAWS - attempt,
    {
        let candidate = random_u64();
        if candidate != 0 && !contains_word(used, candidate) {
            return candidate;
        }
        attempt = attempt + 1;
    }
    let start: u64 = random_u64() / 2;
    let mut offset: u64 = 0;
    while offset <= 0x10001
        invariant
            start < 0x8000_0000_0000_0000,
            offset <= 0x10002,
            used@.len() <= 0x10000,
            forall|i: int| 0 <= i < offset ==> used@.push(0u64).contains(#[trigger] counted_from(start, i)),
        decreases 0x10002 - offset,
    {
        let candidate = start + offset;
        assert(candidate == counted_from(start, offset as int));
        if candidate != 0 && !contains_word(used, candidate) {
            return candidate;
        }
        proof {
            if candidate == 0 {
                assert(used@.push(0u64)[used@.len() as int] == 0u64);
            } else {
                let k = choose|k: int| 0 <= k < used@.len() && used@[k] == candidate;
                assert(used@.push(0u64)[k] == candidate);
            }
        }
        offset = offset + 1;
    }
    proof {
        let values = Seq::new(0x10002, |i: int| counted_from(start, i));
        assert forall|i: int| 0 <= i < values.len() implies used@.push(0u64).contains(#[trigger] values[i]) by {
            assert(used@.push(0u64).contains(counted_from(start, i)));
        }
        lemma_pigeonhole(values, used@.push(0u64));
    }
    1
}

/// Whether `value` is in `words`.
fn contains_word(words: &Vec<u64>, value: u64) -> (found: bool)
    ensures
        found == words@.contains(value),
{
    let mut i: usize = 0;
    while i < words.len()
        invariant
            i <= words@.len(),
            forall|j: int| 0 <= j < i ==> words@[j] != value,
        decreases words@.len() - i,
    {
        if words[i] == value {
            assert(words@[i as int] == value);
            return true;
        }
        i = i + 1;
    }
    false
}

impl LayoutSession {
    /// Each symbol with a token has exactly one token value beside it.
    #[verifier::type_invariant]
    spec fn paired(self) -> bool {
        self.token_symbols@.len() == self.token_values@.len()
    }

    /// Builds a layout for `symbols`: the alphabet must be nonempty and free
    /// of repeats (the first repeated symbol is reported); the slots are a
    /// random permutation of the alphabet, and each symbol gets a distinct
    /// nonzero random token.
    pub fn new(symbols: &[SymbolId]) -> (result: Result<Self, ComposerError>)
        ensures
            symbols@.len() == 0 ==> result == Err::<Self, ComposerError>(ComposerError::EmptyAlphabet),
            symbols@.len() > 0 && !symbols@.no_duplicates() ==> exists|i: int|
                0 <= i < symbols@.len() && repeats_at(symbols@, i)
                && (forall|j: int| 0 <= j < i ==> !repeats_at(symbols@, j))
                && result == Err::<Self, ComposerError>(ComposerError::DuplicateSymbol(symbols@[i])),
            symbols@.len() > 0 && symbols@.no_duplicates() ==> (result matches Ok(layout) && is_layout_of(layout@, symbols@)),
    {
        if symbols.len() == 0 {
            return Err(ComposerError::EmptyAlphabet);
        }
        let mut seen: Vec<bool> = Vec::with_capacity(0x10000);
        let mut v: usize = 0;
        while v < 0x10000
            invariant
                v <= 0x10000,
                seen@.len() == v,
                forall|k: int| 0 <= k < v ==> !seen@[k],
            decreases 0x10000 - v,
        {
            seen.push(false);
            v = v + 1;
        }
        let mut i: usize = 0;
        while i < symbols.len()
            invariant
                i <= symbols@.len(),
                seen@.len() == 0x10000,
                forall|k: int| 0 <= k < 0x10000 ==> #[trigger] seen@[k] == symbols@.take(i as int).contains(SymbolId(k as u16)),
                forall|j: int| 0 <= j < i ==> !repeats_at(symbols@, j),
            decreases symbols@.len() - i,
        {
            let symbol = symbols[i];
            let key = symbol.0 as usize;
            assert(seen@[key as int] == symbols@.take(i as int).contains(SymbolId(key as u16)));
            if seen[key] {
                assert(repeats_at(symbols@, i as int));
                proof {
                    assert(!symbols@.no_duplicates()) by {
                        let j = choose|j: int| 0 <= j < i && symbols@.take(i as int)[j] == symbol;
                        assert(symbols@[j] == symbols@[i as int]);
                    }
                }
                return Err(ComposerError::DuplicateSymbol(symbol));
            }
            seen.set(key, true);
            proof {
                assert(symbols@.take(i as int + 1) =~= symbols@.take(i as int).push(symbol));
                assert forall|k: int| 0 <= k < 0x10000 implies #[trigger] seen@[k] == symbols@.take(i as int + 1).contains(SymbolId(k as u16)) by {
                    if k == key {
                        assert(symbols@.take(i as int + 1)[i as int] == symbol);
                    } else {
                        if symbols@.take(i as int + 1).contains(SymbolId(k as u16)) {
                            let j = choose|j: int| 0 <= j < i + 1 && #[trigger] symbols@.take(i as int + 1)[j] == SymbolId(k as u16);
                            assert(j != i);
                            assert(symbols@.take(i as int)[j] == SymbolId(k as u16));
                        }
                    }
                }
            }
            i = i + 1;
        }
        assert(symbols@.no_duplicates()) by {
            assert forall|a: int, b: int| 0 <= a < symbols@.len() && 0 <= b < symbols@.len() && a != b implies symbols@[a] != symbols@[b] by {
                let (lo, hi) = if a < b { (a, b) } else { (b, a) };
                assert(!repeats_at(symbols@, hi));
                assert(symbols@.take(hi)[lo] == symbols@[lo]);
            }
        }
        proof {
            assert(symbols@.len() <= 0x10000) by {
                let ids = symbols@;
                let all = Seq::new(0x10000, |k: int| SymbolId(k as u16));
                assert forall|t: int| 0 <= t < ids.len() implies all.contains(#[trigger] ids[t]) by {
                    assert(all[ids[t].0 as int] == ids[t]);
                }
                lemma_pigeonhole(ids, all);
            }
        }

        let mut slots = vstd::slice::slice_to_vec(symbols);
        let ghost ordered = slots@;
        shuffle(&mut slots);

        let mut owners: Vec<SymbolId> = Vec::with_capacity(symbols.len());
        let mut used: Vec<u64> = Vec::with_capacity(symbols.len());
        let mut k: usize = 0;
        while k < symbols.len()
            invariant
                k <= symbols@.len(),
                symbols@.len() <= 0x10000,
                owners@.len() == k,
                used@.len() == k,
                forall|t: int| 0 <= t < k ==> #[trigger] owners@[t] == symbols@[t],
                forall|t: int| 0 <= t < k ==> #[trigger] used@[t] != 0,
                used@.no_duplicates(),
            decreases symbols@.len() - k,
        {
            let token = fresh_token(&used);
            owners.push(symbols[k]);
            used.push(token);
            k = k + 1;
        }
        let layout = LayoutSession { slots, token_symbols: owners, token_values: used };
        proof {
            assert(ordered == symbols@);
            assert(layout@.1.len() == symbols@.len());
            assert forall|a: int, b: int| 0 <= a < b < layout@.1.len() implies layout@.1[a].1 != layout@.1[b].1 by {
                assert(layout@.1[a].1 == used@[a] && layout@.1[b].1 == used@[b]);
            }
        }
        Ok(layout)
    }

    /// Number of key slots (the alphabet size).
    pub fn slot_count(&self) -> (count: usize)
        ensures
            count == self@.0.len(),
    {
        self.slots.len()
    }

    /// The symbol in key slot `slot`, or `InvalidSlot` past the last slot.
    pub fn symbol_for_slot(&self, slot: usize) -> (result: Result<SymbolId, ComposerError>)
        ensures
            result == (if slot < self@.0.len() {
                Ok::<SymbolId, ComposerError>(self@.0[slot as int])
            } else {
                Err(ComposerError::InvalidSlot(slot))
            }),
    {
        if slot < self.slots.len() {
            Ok(self.slots[slot])
        } else {
            Err(ComposerError::InvalidSlot(slot))
        }
    }

    /// The ephemeral token of `symbol`, if it is in this layout's alphabet.
    pub fn token_for_symbol(&self, symbol: SymbolId) -> (token: Option<EphemeralToken>)
        ensures
            match token {
                Some(t) => token_of(self@.1, symbol) == Some(t@),
                None => token_of(self@.1, symbol) is None,
            },
    {
        let ghost entries = self@.1;
        proof {
            use_type_invariant(self);
        }
        let count = self.token_symbols.len();
        let mut i: usize = 0;
        while i < count
            invariant
                entries == self@.1,
                entries.len() == count,
                count <= self.token_symbols@.len(),
                count <= self.token_values@.len(),
                i <= count,
                token_of(entries, symbol) == token_of(entries.skip(i as int), symbol),
            decreases count - i,
        {
            let candidate = self.token_symbols[i];
            let token = EphemeralToken(self.token_values[i]);
            assert(entries.skip(i as int)[0] == (candidate, token@));
            assert(entries.skip(i as int).drop_first() =~= entries.skip(i as int + 1));
            if candidate == symbol {
                return Some(token);
            }
            i = i + 1;
        }
        assert(entries.skip(i as int).len() == 0);
        None
    }

    /// The token of the symbol in key slot `slot`; `InvalidSlot` past the last
    /// slot or when that symbol has no token.
    pub fn token_for_slot(&self, slot: usize) -> (result: Result<EphemeralToken, ComposerError>)
        ensures
            match result {
                Ok(t) => slot < self@.0.len() && token_of(self@.1, self@.0[slot as int]) == Some(t@),
                Err(e) => e == ComposerError::InvalidSlot(slot)
                    && (slot >= self@.0.len() || token_of(self@.1, self@.0[slot as int]) is None),
            },
    {
        let symbol = self.symbol_for_slot(slot)?;
        match self.token_for_symbol(symbol) {
            Some(token) => Ok(token),
            None => Err(ComposerError::InvalidSlot(slot)),
        }
    }
}

/// In a layout, the token of the symbol at position `i` of the alphabet is
/// that position's token.
proof fn lemma_token_of_layout(tokens: Seq<(SymbolId, u64)>, symbols: Seq<SymbolId>, i: int)
    requires
        tokens.len() == symbols.len(),
        symbols.no_duplicates(),
        forall|t: int| 0 <= t < symbols.len() ==> (#[trigger] tokens[t]).0 == symbols[t],
        0 <= i < symbols.len(),
    ensures
        token_of(tokens, symbols[i]) == Some(tokens[i].1),
    decreases i,
{
    if i > 0 {
        assert(tokens[0].0 != symbols[i]);
        lemma_token_of_layout(tokens.drop_first(), symbols.drop_first(), i - 1);
    }
}

/// Every key slot of a layout resolves to a token, and that token is the token
/// of the slot's symbol; no two symbols share a token, and no token is zero.
pub proof fn lemma_every_slot_has_its_symbols_token(layout: LayoutView, symbols: Seq<SymbolId>, slot: int)
    requires
        is_layout_of(layout, symbols),
        0 <= slot < layout.0.len(),
    ensures
        token_of(layout.1, layout.0[slot]) is Some,
        token_of(layout.1, layout.0[slot])->0 != 0,
        forall|a: SymbolId, b: SymbolId|
            #![trigger token_of(layout.1, a), token_of(layout.1, b)]
            symbols.contains(a) && symbols.contains(b) && a != b
            ==> token_of(layout.1, a) != token_of(layout.1, b),
{
    let symbol = layout.0[slot];
    lemma_permutation_contains(layout.0, symbols, symbol);
    let i = choose|i: int| 0 <= i < symbols.len() && symbols[i] == symbol;
    lemma_token_of_layout(layout.1, symbols, i);
    assert forall|a: SymbolId, b: SymbolId|
        #![trigger token_of(layout.1, a), token_of(layout.1, b)]
        symbols.contains(a) && symbols.contains(b) && a != b
        implies token_of(layout.1, a) != token_of(layout.1, b) by {
        let ia = choose|t: int| 0 <= t < symbols.len() && symbols[t] == a;
        let ib = choose|t: int| 0 <= t < symbols.len() && symbols[t] == b;
        lemma_token_of_layout(layout.1, symbols, ia);
        lemma_token_of_layout(layout.1, symbols, ib);
        if ia < ib {
            assert(layout.1[ia].1 != layout.1[ib].1);
        } else {
            assert(layout.1[ib].1 != layout.1[ia].1);
        }
    }
}

impl Drop for LayoutSession {
    /// Overwrites every token value with zero.
    fn drop(&mut self)
        opens_invariants none
        no_unwind
    {
        proof {
            use_type_invariant(&*self);
        }
        zero_words(&mut self.token_values);
    }
}

/// Ephemeral tokens typed during composition, held only until cleared.
#[derive(Debug)]
pub struct SensitiveBuffer {
    tokens: Vec<u64>,
}

impl View for SensitiveBuffer {
    type V = Seq<u64>;

    closed spec fn view(&self) -> Seq<u64> {
        self.tokens@
    }
}

impl Default for SensitiveBuffer {
    /// An empty buffer.
    fn default() -> (buffer: Self)
        ensures
            buffer@ == Seq::<u64>::empty(),
    {
        SensitiveBuffer { tokens: Vec::new() }
    }
}

impl SensitiveBuffer {
    /// Appends a token's value.
    pub fn push(&mut self, token: EphemeralToken)
        ensures
            final(self)@ == old(self)@.push(token@),
    {
        self.tokens.push(token.0);
    }

    /// Number of tokens held.
    pub fn len(&self) -> (count: usize)
        ensures
            count == self@.len(),
    {
        self.tokens.len()
    }

    /// Whether no token is held.
    pub fn is_empty(&self) -> (empty: bool)
        ensures
            empty == (self@.len() == 0),
    {
        self.tokens.len() == 0
    }

    /// The token values held, oldest first.
    pub fn as_tokens(&self) -> (tokens: &[u64])
        ensures
            tokens@ == self@,
    {
        self.tokens.as_slice()
    }

    /// Overwrites the held token values with zeros and empties the buffer.
    pub fn clear(&mut self)
        ensures
            final(self)@ == Seq::<u64>::empty(),
    {
        wipe_words(&mut self.tokens);
        self.tokens.clear();
    }
}

impl Drop for SensitiveBuffer {
    /// Wipes the held tokens.
    fn drop(&mut self)
        opens_invariants none
        no_unwind
    {
        wipe_words(&mut self.tokens);
    }
}

} // verus!
