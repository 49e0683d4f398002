use vstd::prelude::*;

verus! {

/// The upper-case hexadecimal digits, in value order.
pub open spec fn upper_digits() -> Seq<char> {
    "0123456789ABCDEF"@
}

/// The lower-case hexadecimal digits, in value order.
pub open spec fn lower_digits() -> Seq<char> {
    "0123456789abcdef"@
}

/// The two digits of `byte` in base 16, high digit first, drawn from `digits`.
pub open spec fn hex_pair(digits: Seq<char>, byte: u8) -> Seq<char> {
    seq![digits[byte as int / 16], digits[byte as int % 16]]
}

/// `bytes` written as base-16 digit pairs drawn from `digits`, with nothing
/// between them.
pub open spec fn hex_text(digits: Seq<char>, bytes: Seq<u8>) -> Seq<char>
    decreases bytes.len(),
{
    if bytes.len() == 0 {
        Seq::empty()
    } else {
        hex_text(digits, bytes.drop_last()) + hex_pair(digits, bytes.last())
    }
}

/// Appends the two digits of `byte`, upper case if `upper`, else lower case.
pub fn push_hex_pair(out: &mut String, byte: u8, upper: bool)
    ensures
        final(out)@ == old(out)@ + hex_pair(if upper { upper_digits() } else { lower_digits() }, byte),
{
    let digits = if upper { "0123456789ABCDEF" } else { "0123456789abcdef" };
    proof {
        reveal_strlit("0123456789ABCDEF");
        reveal_strlit("0123456789abcdef");
    }
    let high = (byte / 16) as usize;
    let low = (byte % 16) as usize;
    out.append(digits.substring_ascii(high, high + 1));
    out.append(digits.substring_ascii(low, low + 1));
    assert(final(out)@ =~= old(out)@ + hex_pair(if upper { upper_digits() } else { lower_digits() }, byte));
}

/// Hex text has two digits per byte, the high nibble's digit first and the
/// low nibble's second.
pub proof fn lemma_hex_text_digits(digits: Seq<char>, bytes: Seq<u8>)
    ensures
        hex_text(digits, bytes).len() == 2 * bytes.len(),
        forall|k: int| 0 <= k < bytes.len() ==> {
            &&& #[trigger] hex_text(digits, bytes)[2 * k] == digits[bytes[k] as int / 16]
            &&& hex_text(digits, bytes)[2 * k + 1] == digits[bytes[k] as int % 16]
        },
    decreases bytes.len(),
{
    if bytes.len() > 0 {
        let rest = bytes.drop_last();
        lemma_hex_text_digits(digits, rest);
        assert forall|k: int| 0 <= k < bytes.len() implies {
            &&& #[trigger] hex_text(digits, bytes)[2 * k] == digits[bytes[k] as int / 16]
            &&& hex_text(digits, bytes)[2 * k + 1] == digits[bytes[k] as int % 16]
        } by {
            if k < rest.len() {
                assert(hex_text(digits, rest)[2 * k] == digits[rest[k] as int / 16]);
            }
        }
    }
}

/// `bytes` as lower-case hexadecimal text, two digits per byte.
pub fn lower_hex(bytes: &[u8]) -> (text: String)
    ensures
        text@ == hex_text(lower_digits(), bytes@),
        text@.len() == 2 * bytes@.len(),
        forall|k: int| 0 <= k < bytes@.len() ==> {
            &&& #[trigger] text@[2 * k] == lower_digits()[bytes@[k] as int / 16]
            &&& text@[2 * k + 1] == lower_digits()[bytes@[k] as int % 16]
        },
{
    let mut text = String::new();
    let mut i: usize = 0;
    while i < bytes.len()
        invariant
            i <= bytes@.len(),
            text@ == hex_text(lower_digits(), bytes@.take(i as int)),
        decreases bytes@.len() - i,
    {
        push_hex_pair(&mut text, bytes[i], false);
        assert(bytes@.take(i as int + 1).drop_last() =~= bytes@.take(i as int));
        i = i + 1;
    }
    assert(bytes@.take(i as int) =~= bytes@);
    proof {
        lemma_hex_text_digits(lower_digits(), bytes@);
    }
    text
}

/// `n` in decimal, most significant digit first, without leading zeros.
pub open spec fn decimal(n: nat) -> Seq<char>
    decreases n,
{
    if n < 10 {
        seq![lower_digits()[n as int]]
    } else {
        decimal(n / 10) + seq![lower_digits()[(n % 10) as int]]
    }
}

/// `bytes` as a bracketed, comma-separated list of decimal numbers, the way
/// `Debug` shows a byte array: `[1, 2, 3]`.
pub open spec fn decimal_list(bytes: Seq<u8>) -> Seq<char> {
    seq!['['] + decimal_items(bytes) + seq![']']
}

/// The items of `decimal_list` without the brackets.
pub open spec fn decimal_items(bytes: Seq<u8>) -> Seq<char>
    decreases bytes.len(),
{
    if bytes.len() == 0 {
        Seq::empty()
    } else if bytes.len() == 1 {
        decimal(bytes[0] as nat)
    } else {
        decimal_items(bytes.drop_last()) + seq![',', ' '] + decimal(bytes.last() as nat)
    }
}

/// Appends `n` in decimal.
pub fn push_decimal(out: &mut String, n: usize)
    ensures
        final(out)@ == old(out)@ + decimal(n as nat),
    decreases n,
{
    if n >= 10 {
        push_decimal(out, n / 10);
    }
    proof {
        reveal_strlit("0123456789");
    }
    let digit = n % 10;
    out.append("0123456789".substring_ascii(digit, digit + 1));
    proof {
        reveal_strlit("0123456789abcdef");
    }
    assert(final(out)@ =~= old(out)@ + decimal(n as nat));
}

/// Appends `bytes` the way `Debug` shows a byte array.
pub fn push_decimal_list(out: &mut String, bytes: &[u8])
    ensures
        final(out)@ == old(out)@ + decimal_list(bytes@),
{
    proof {
        reveal_strlit("[");
        reveal_strlit("]");
        reveal_strlit(", ");
    }
    out.append("[");
    let ghost start = out@;
    let mut i: usize = 0;
    while i < bytes.len()
        invariant
            i <= bytes@.len(),
            out@ == start + decimal_items(bytes@.take(i as int)),
        decreases bytes@.len() - i,
    {
        let ghost before = out@;
        proof {
            reveal_strlit(", ");
        }
        if i > 0 {
            out.append(", ");
        }
        let ghost separated = out@;
        push_decimal(out, bytes[i] as usize);
        let ghost next = bytes@.take(i as int + 1);
        assert(next.drop_last() =~= bytes@.take(i as int));
        assert(next.last() == bytes@[i as int]);
        if i == 0 {
            assert(separated == before);
            assert(decimal_items(next) == decimal(bytes@[0] as nat));
            assert(out@ =~= start + decimal_items(next));
        } else {
            assert(separated =~= before + seq![',', ' ']);
            assert(decimal_items(next) == decimal_items(bytes@.take(i as int)) + seq![',', ' '] + decimal(
                bytes@[i as int] as nat,
            ));
            assert(out@ =~= start + decimal_items(next));
        }
        i = i + 1;
    }
    assert(bytes@.take(i as int) =~= bytes@);
    out.append("]");
    assert(final(out)@ =~= old(out)@ + decimal_list(bytes@));
}

} // verus!
