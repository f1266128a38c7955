//! Text as bytes: turning UTF-8 bytes into strings, comparing strings, and
//! reading decimal numbers.

use vstd::prelude::*;
use vstd::utf8::{valid_utf8, decode_utf8, encode_utf8, is_ascii_chars};

verus! {

/// Calls `String::from_utf8` of std.  The result is a string exactly when the
/// bytes are valid UTF-8, and then the string is made of these bytes.
#[verifier::external_body]
pub(crate) fn string_from_utf8(bytes: Vec<u8>) -> (r: Option<String>)
    ensures
        r is Some <==> valid_utf8(bytes@),
        r matches Some(s) ==> encode_utf8(s@) == bytes@,
{
    String::from_utf8(bytes).ok()
}

/// The text that the bytes spell, if they are valid UTF-8.
pub open spec fn utf8_text(bytes: Seq<u8>) -> Option<Seq<char>> {
    if valid_utf8(bytes) {
        Some(decode_utf8(bytes))
    } else {
        None
    }
}

/// Turns bytes into a string, if they are valid UTF-8.
pub fn text_of_bytes(bytes: Vec<u8>) -> (r: Option<String>)
    ensures
        match utf8_text(bytes@) {
            Some(text) => r is Some && r->Some_0@ == text,
            None => r is None,
        },
{
    let r = string_from_utf8(bytes);
    proof {
        if r is Some {
            vstd::utf8::encode_utf8_decode_utf8(r->Some_0@);
        }
    }
    r
}

/// Whether two byte slices hold the same bytes.
pub fn bytes_eq(a: &[u8], b: &[u8]) -> (r: bool)
    ensures
        r == (a@ == b@),
{
    if a.len() != b.len() {
        return false;
    }
    let mut i: usize = 0;
    while i < a.len()
        invariant
            i <= a.len(),
            a.len() == b.len(),
            forall|k: int| 0 <= k < i ==> a@[k] == b@[k],
        decreases a.len() - i,
    {
        if a[i] != b[i] {
            return false;
        }
        i += 1;
    }
    assert(a@ =~= b@);
    true
}

/// Whether two strings hold the same text.
pub fn str_eq(a: &str, b: &str) -> (r: bool)
    ensures
        r == (a@ == b@),
{
    let r = bytes_eq(a.as_bytes(), b.as_bytes());
    proof {
        vstd::utf8::encode_utf8_decode_utf8(a@);
        vstd::utf8::encode_utf8_decode_utf8(b@);
    }
    r
}

/// The number that decimal digits spell, most significant first.
pub open spec fn decimal_value(digits: Seq<char>) -> nat
    decreases digits.len(),
{
    if digits.len() == 0 {
        0
    } else {
        10 * decimal_value(digits.drop_last()) + (digits.last() as nat - '0' as nat) as nat
    }
}

/// Whether the text is one or more decimal digits.
pub open spec fn is_decimal(text: Seq<char>) -> bool {
    &&& text.len() > 0
    &&& forall|i: int| 0 <= i < text.len() ==> '0' <= #[trigger] text[i] <= '9'
}

/// The first digits of a number spell no more than all of them.
pub proof fn lemma_decimal_value_monotone(digits: Seq<char>, k: int)
    requires
        0 <= k <= digits.len(),
        forall|i: int| 0 <= i < digits.len() ==> '0' <= #[trigger] digits[i] <= '9',
    ensures
        decimal_value(digits.take(k)) <= decimal_value(digits),
    decreases digits.len() - k,
{
    if k < digits.len() {
        lemma_decimal_value_monotone(digits, k + 1);
        let next = digits.take(k + 1);
        assert(next.drop_last() =~= digits.take(k));
    } else {
        assert(digits.take(k) =~= digits);
    }
}

/// Reads a decimal number: `Some` exactly when the text is one or more digits
/// whose number fits in 32 bits.
pub fn parse_decimal(text: &str) -> (r: Option<u32>)
    ensures
        r == if is_decimal(text@) && decimal_value(text@) <= u32::MAX {
            Some(decimal_value(text@) as u32)
        } else {
            None
        },
{
    if !text.is_ascii() {
        assert(!is_decimal(text@)) by {
            if is_decimal(text@) {
                assert forall|i: int| 0 <= i < text@.len() implies (text@[i] as nat) < 128 by {
                    assert('0' <= text@[i] <= '9');
                }
            }
        }
        return None;
    }
    let bytes = text.as_bytes();
    proof {
        vstd::utf8::is_ascii_chars_encode_utf8(text@);
    }
    let n = bytes.len();
    if n == 0 {
        return None;
    }
    let mut value: u32 = 0;
    let mut i: usize = 0;
    assert(text@.take(0) =~= Seq::<char>::empty());
    while i < n
        invariant
            i <= n,
            n == text@.len(),
            bytes@.len() == n,
            is_ascii_chars(text@),
            bytes@ == encode_utf8(text@),
            forall|k: int| 0 <= k < i ==> '0' <= #[trigger] text@[k] <= '9',
            value == decimal_value(text@.take(i as int)),
        decreases n - i,
    {
        let c = bytes[i];
        proof {
            vstd::utf8::is_ascii_chars_encode_utf8(text@);
            vstd::utf8::is_ascii_chars_nat_bound(text@);
            assert(c == text@[i as int] as u8);
            assert((text@[i as int] as nat) < 128);
        }
        if c < 48 || c > 57 {
            assert(!('0' <= text@[i as int] <= '9'));
            return None;
        }
        let digit: u32 = (c - 48) as u32;
        proof {
            let next = text@.take(i + 1);
            assert(next.drop_last() =~= text@.take(i as int));
            assert(next.last() == text@[i as int]);
            assert('0' as nat == 48);
            assert(text@[i as int] as nat == c as nat);
            assert(decimal_value(next) == 10 * value + digit);
        }
        if value > (u32::MAX - digit) / 10 {
            proof {
                assert(decimal_value(text@.take(i + 1)) > u32::MAX);
                if is_decimal(text@) {
                    lemma_decimal_value_monotone(text@, i + 1);
                }
            }
            return None;
        }
        value = 10 * value + digit;
        i += 1;
    }
    assert(text@.take(n as int) =~= text@);
    Some(value)
}

/// The texts of a list of strings.
pub open spec fn texts_of(strings: Seq<String>) -> Seq<Seq<char>> {
    Seq::new(strings.len(), |i: int| strings[i]@)
}

/// Whether `text` begins with `prefix`.
pub open spec fn starts_with(text: Seq<u8>, prefix: Seq<u8>) -> bool {
    prefix.len() <= text.len() && text.take(prefix.len() as int) == prefix
}

/// Whether the bytes of `text` begin with those of `prefix`.
pub fn bytes_start_with(text: &[u8], prefix: &[u8]) -> (r: bool)
    ensures
        r == starts_with(text@, prefix@),
{
    if prefix.len() > text.len() {
        return false;
    }
    let mut i: usize = 0;
    while i < prefix.len()
        invariant
            i <= prefix.len() <= text.len(),
            forall|k: int| 0 <= k < i ==> text@[k] == prefix@[k],
        decreases prefix.len() - i,
    {
        if text[i] != prefix[i] {
            assert(text@.take(prefix@.len() as int)[i as int] != prefix@[i as int]);
            return false;
        }
        i += 1;
    }
    assert(text@.take(prefix@.len() as int) =~= prefix@);
    true
}

/// The text whose characters are the given ASCII bytes.
pub open spec fn ascii_chars(bytes: Seq<u8>) -> Seq<char> {
    Seq::new(bytes.len(), |i: int| bytes[i] as char)
}

/// Bytes below 128 are valid UTF-8 and spell one character each.
pub proof fn lemma_ascii_is_utf8(bytes: Seq<u8>)
    requires
        forall|i: int| 0 <= i < bytes.len() ==> bytes[i] < 0x80,
    ensures
        utf8_text(bytes) == Some(ascii_chars(bytes)),
{
    let chars = ascii_chars(bytes);
    assert(is_ascii_chars(chars)) by {
        assert forall|i: int| 0 <= i < chars.len() implies '\0' <= #[trigger] chars[i]
            <= '\u{7f}' by {
            assert(chars[i] == bytes[i] as char);
            assert((bytes[i] as char) as nat == bytes[i] as nat);
        }
    }
    vstd::utf8::is_ascii_chars_encode_utf8(chars);
    assert(encode_utf8(chars) =~= bytes) by {
        assert forall|i: int| 0 <= i < bytes.len() implies encode_utf8(chars)[i] == bytes[i] by {
            assert(chars[i] as u8 == encode_utf8(chars)[i]);
            assert((bytes[i] as char) as u8 == bytes[i]);
        }
    }
    vstd::utf8::encode_utf8_valid_utf8(chars);
    vstd::utf8::encode_utf8_decode_utf8(chars);
}

/// The decimal digits of a number, most significant first.
pub open spec fn decimal_digits(value: nat) -> Seq<u8>
    decreases value,
{
    if value < 10 {
        seq![(0x30 + value) as u8]
    } else {
        decimal_digits(value / 10).push((0x30 + value % 10) as u8)
    }
}

/// The decimal digits of a number as text.
pub open spec fn decimal_text(value: nat) -> Seq<char> {
    ascii_chars(decimal_digits(value))
}

/// The digits of a number are the bytes `0` to `9`.
pub proof fn lemma_decimal_digits_ascii(value: nat)
    ensures
        forall|i: int|
            0 <= i < decimal_digits(value).len() ==> 0x30 <= #[trigger] decimal_digits(value)[i]
                <= 0x39,
    decreases value,
{
    let digits = decimal_digits(value);
    if value >= 10 {
        lemma_decimal_digits_ascii(value / 10);
        let front = decimal_digits(value / 10);
        assert forall|i: int| 0 <= i < digits.len() implies 0x30 <= #[trigger] digits[i]
            <= 0x39 by {
            if i < front.len() {
                assert(digits[i] == front[i]);
            }
        }
    } else {
        assert(digits[0] == (0x30 + value) as u8);
    }
}

/// Appends the decimal digits of `value`.
pub fn push_decimal(out: &mut Vec<u8>, value: usize)
    ensures
        final(out)@ == old(out)@ + decimal_digits(value as nat),
    decreases value,
{
    if value >= 10 {
        push_decimal(out, value / 10);
    }
    out.push(0x30 + (value % 10) as u8);
    assert(out@ =~= old(out)@ + decimal_digits(value as nat));
}

/// The decimal digits of `value` as a string.
pub fn decimal_string(value: usize) -> (r: String)
    ensures
        r@ == decimal_text(value as nat),
{
    let mut digits: Vec<u8> = Vec::new();
    push_decimal(&mut digits, value);
    proof {
        assert(digits@ =~= decimal_digits(value as nat));
        lemma_decimal_digits_ascii(value as nat);
        lemma_ascii_is_utf8(digits@);
    }
    match text_of_bytes(digits) {
        Some(text) => text,
        None => String::new(),
    }
}

} // verus!
