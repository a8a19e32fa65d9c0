//! Text building blocks: characters, decimal and hexadecimal numbers.

use vstd::prelude::*;
use vstd::utf8::{encode_utf8, encode_utf8_decode_utf8};

verus! {

/// `String::push` appends one character at the end.
pub assume_specification[ std::string::String::push ](text: &mut std::string::String, ch: char)
    ensures
        final(text)@ == old(text)@.push(ch),
;

/// `String::push_str` appends the given text at the end.
pub assume_specification[ std::string::String::push_str ](
    text: &mut std::string::String,
    more: &str,
)
    ensures
        final(text)@ == old(text)@ + more@,
;

/// The characters of a text.
pub fn chars_of(text: &str) -> (r: Vec<char>)
    ensures
        r@ == text@,
{
    let mut chars: Vec<char> = Vec::new();
    for c in iter: text.chars()
        invariant
            chars@ == iter.seq().take(iter.index() as int),
    {
        chars.push(c);
    }
    chars
}

/// A text of the given characters.
pub fn text_of(chars: &[char]) -> (r: String)
    ensures
        r@ == chars@,
{
    let mut text = String::new();
    let mut i: usize = 0;
    while i < chars.len()
        invariant
            i <= chars@.len(),
            text@ == chars@.take(i as int),
        decreases chars@.len() - i,
    {
        text.push(chars[i]);
        i = i + 1;
        proof {
            assert(text@ =~= chars@.take(i as int));
        }
    }
    proof {
        assert(chars@.take(i as int) =~= chars@);
    }
    text
}

/// Two texts have the same bytes exactly when they have the same characters.
pub proof fn lemma_same_bytes(a: Seq<char>, b: Seq<char>)
    ensures
        encode_utf8(a) == encode_utf8(b) <==> a == b,
{
    encode_utf8_decode_utf8(a);
    encode_utf8_decode_utf8(b);
}

/// Whether two texts are the same.
pub fn same_text(a: &str, b: &str) -> (r: bool)
    ensures
        r == (a@ == b@),
{
    let left = a.as_bytes();
    let right = b.as_bytes();
    proof {
        lemma_same_bytes(a@, b@);
    }
    if left.len() != right.len() {
        return false;
    }
    let mut i: usize = 0;
    while i < left.len()
        invariant
            i <= left@.len() == right@.len(),
            left@ == encode_utf8(a@),
            right@ == encode_utf8(b@),
            encode_utf8(a@) == encode_utf8(b@) <==> a@ == b@,
            forall|k: int| 0 <= k < i ==> left@[k] == right@[k],
        decreases left@.len() - i,
    {
        if left[i] != right[i] {
            return false;
        }
        i = i + 1;
    }
    proof {
        assert(left@ =~= right@);
    }
    true
}

/// The character of a decimal digit.
pub open spec fn digit_char(digit: int) -> char {
    (48 + digit) as char
}

/// A decimal digit.
pub open spec fn is_digit(c: char) -> bool {
    '0' <= c <= '9'
}

/// A number in decimal, without leading zeros.
pub open spec fn dec_text(n: nat) -> Seq<char>
    decreases n,
{
    if n < 10 {
        seq![digit_char(n as int)]
    } else {
        dec_text(n / 10).push(digit_char((n % 10) as int))
    }
}

/// The number that decimal digits stand for.
pub open spec fn dec_value(s: Seq<char>) -> nat
    decreases s.len(),
{
    if s.len() == 0 {
        0
    } else {
        (dec_value(s.drop_last()) * 10 + (s.last() as int - 48)) as nat
    }
}

/// Every character is a decimal digit.
pub open spec fn all_digits(s: Seq<char>) -> bool {
    forall|i: int| 0 <= i < s.len() ==> is_digit(#[trigger] s[i])
}

/// Law: reading back the decimal text of a number gives the number; the text
/// has only digits, at least one, and no leading zero but for zero itself.
pub proof fn law_decimal_round_trip(n: nat)
    ensures
        dec_value(dec_text(n)) == n,
        all_digits(dec_text(n)),
        dec_text(n).len() > 0,
        dec_text(n)[0] == '0' <==> n == 0,
        n == 0 ==> dec_text(n).len() == 1,
    decreases n,
{
    if n < 10 {
        let s = dec_text(n);
        assert(s.drop_last() =~= Seq::empty());
        assert(dec_value(s.drop_last()) == 0);
    } else {
        law_decimal_round_trip(n / 10);
        let s = dec_text(n);
        assert(s.drop_last() =~= dec_text(n / 10));
        assert(s[0] == dec_text(n / 10)[0]);
    }
}

/// Append a number in decimal.
pub fn push_decimal(out: &mut String, value: u128)
    ensures
        final(out)@ == old(out)@ + dec_text(value as nat),
    decreases value,
{
    if value >= 10 {
        push_decimal(out, value / 10);
    }
    let digit: u8 = (value % 10) as u8;
    out.push((48 + digit) as char);
    proof {
        assert(out@ =~= old(out)@ + dec_text(value as nat));
    }
}

/// A number in decimal.
pub fn decimal(value: u128) -> (r: String)
    ensures
        r@ == dec_text(value as nat),
{
    let mut out = String::new();
    push_decimal(&mut out, value);
    proof {
        assert(out@ =~= dec_text(value as nat));
    }
    out
}

/// What a text reads as an unsigned number no greater than `max`: an optional
/// plus sign and at least one digit.
pub open spec fn read_unsigned(s: Seq<char>, max: nat) -> Option<nat> {
    let digits = if s.len() > 0 && s[0] == '+' {
        s.skip(1)
    } else {
        s
    };
    if digits.len() > 0 && all_digits(digits) && dec_value(digits) <= max {
        Some(dec_value(digits))
    } else {
        None
    }
}

/// Leading digits never exceed the whole number.
proof fn lemma_dec_value_prefix(s: Seq<char>, i: int)
    requires
        0 <= i <= s.len(),
        all_digits(s),
    ensures
        dec_value(s.take(i)) <= dec_value(s),
    decreases s.len() - i,
{
    if i < s.len() {
        lemma_dec_value_prefix(s, i + 1);
        let longer = s.take(i + 1);
        assert(longer.drop_last() =~= s.take(i));
        assert(longer.last() == s[i]);
    } else {
        assert(s.take(i) =~= s);
    }
}

/// Read an unsigned number no greater than `max`.
pub fn parse_unsigned(chars: &[char], max: u128) -> (r: Option<u128>)
    ensures
        match r {
            Some(v) => read_unsigned(chars@, max as nat) == Some(v as nat),
            None => read_unsigned(chars@, max as nat) is None,
        },
{
    let len: usize = chars.len();
    let start: usize = if len > 0 && chars[0] == '+' {
        1
    } else {
        0
    };
    let ghost digits = if len > 0 && chars@[0] == '+' {
        chars@.skip(1)
    } else {
        chars@
    };
    proof {
        assert(digits =~= chars@.skip(start as int));
    }
    if start == len {
        return None;
    }
    let mut value: u128 = 0;
    let mut i: usize = start;
    proof {
        assert(digits.take(0) =~= Seq::empty());
    }
    while i < len
        invariant
            start <= i <= len == chars@.len(),
            digits == chars@.skip(start as int),
            digits == (if len > 0 && chars@[0] == '+' {
                chars@.skip(1)
            } else {
                chars@
            }),
            all_digits(digits.take(i - start)),
            value == dec_value(digits.take(i - start)),
            value <= max,
        decreases len - i,
    {
        let c: char = chars[i];
        let ghost k = i - start;
        proof {
            assert(digits[k] == c);
        }
        if c < '0' || c > '9' {
            return None;
        }
        let digit: u128 = (c as u32 - 48) as u128;
        proof {
            let longer = digits.take(k + 1);
            assert(longer.drop_last() =~= digits.take(k));
            assert(longer.last() == c);
            assert(dec_value(longer) == value * 10 + digit);
            assert forall|j: int| 0 <= j < longer.len() implies is_digit(#[trigger] longer[j]) by {
                if j < k {
                    assert(longer[j] == digits.take(k)[j]);
                }
            }
            if all_digits(digits) {
                lemma_dec_value_prefix(digits, k + 1);
            }
        }
        if value > max / 10 || max - value * 10 < digit {
            return None;
        }
        value = value * 10 + digit;
        i = i + 1;
    }
    proof {
        assert(digits.take(len - start) =~= digits);
    }
    Some(value)
}

/// The character of a hexadecimal digit, in lower case.
pub open spec fn hex_char(digit: int) -> char {
    if digit < 10 {
        (48 + digit) as char
    } else {
        (87 + digit) as char
    }
}

/// The value of a hexadecimal digit in either case.
pub open spec fn hex_digit(c: char) -> Option<int> {
    if '0' <= c <= '9' {
        Some(c as int - 48)
    } else if 'a' <= c <= 'f' {
        Some(c as int - 87)
    } else if 'A' <= c <= 'F' {
        Some(c as int - 55)
    } else {
        None
    }
}

/// The value of a hexadecimal digit in either case.
pub fn hex_digit_value(c: char) -> (r: Option<u32>)
    ensures
        match r {
            Some(v) => hex_digit(c) == Some(v as int) && v < 16,
            None => hex_digit(c) is None,
        },
{
    if '0' <= c && c <= '9' {
        Some(c as u32 - 48)
    } else if 'a' <= c && c <= 'f' {
        Some(c as u32 - 87)
    } else if 'A' <= c && c <= 'F' {
        Some(c as u32 - 55)
    } else {
        None
    }
}

/// The character of a hexadecimal digit, in lower case.
pub fn hex_digit_char(digit: u8) -> (r: char)
    requires
        digit < 16,
    ensures
        r == hex_char(digit as int),
{
    if digit < 10 {
        (48 + digit) as char
    } else {
        (87 + digit) as char
    }
}

/// Two hexadecimal digits for each byte.
pub open spec fn hex_text(bytes: Seq<u8>) -> Seq<char>
    decreases bytes.len(),
{
    if bytes.len() == 0 {
        Seq::empty()
    } else {
        hex_text(bytes.drop_last()) + seq![
            hex_char(bytes.last() as int / 16),
            hex_char(bytes.last() as int % 16),
        ]
    }
}

/// Append two hexadecimal digits for each byte.
pub fn push_hex(out: &mut String, bytes: &[u8])
    ensures
        final(out)@ == old(out)@ + hex_text(bytes@),
{
    let mut i: usize = 0;
    proof {
        assert(bytes@.take(0) =~= Seq::empty());
        assert(out@ =~= old(out)@ + hex_text(bytes@.take(0)));
    }
    while i < bytes.len()
        invariant
            i <= bytes@.len(),
            out@ == old(out)@ + hex_text(bytes@.take(i as int)),
        decreases bytes@.len() - i,
    {
        let byte: u8 = bytes[i];
        let ghost before = out@;
        out.push(hex_digit_char(byte / 16));
        out.push(hex_digit_char(byte % 16));
        i = i + 1;
        proof {
            let longer = bytes@.take(i as int);
            assert(longer.drop_last() =~= bytes@.take(i - 1));
            assert(longer.last() == byte);
            assert(out@ =~= old(out)@ + hex_text(longer));
        }
    }
    proof {
        assert(bytes@.take(i as int) =~= bytes@);
    }
}

/// The byte that a pair of characters stands for in base sixteen. A plus sign
/// may stand in place of the first digit.
pub open spec fn hex_pair(a: char, b: char) -> Option<u8> {
    match hex_digit(b) {
        None => None,
        Some(low) => if a == '+' {
            Some(low as u8)
        } else {
            match hex_digit(a) {
                Some(high) => Some((high * 16 + low) as u8),
                None => None,
            }
        },
    }
}

/// The bytes that pairs of characters stand for in base sixteen.
pub open spec fn hex_bytes(s: Seq<char>) -> Option<Seq<u8>>
    decreases s.len(),
{
    if s.len() == 0 {
        Some(Seq::empty())
    } else if s.len() == 1 {
        None
    } else {
        match (hex_bytes(s.take(s.len() - 2)), hex_pair(s[s.len() - 2], s[s.len() - 1])) {
            (Some(front), Some(byte)) => Some(front.push(byte)),
            _ => None,
        }
    }
}

/// Law: decoding the hexadecimal text of bytes gives the bytes.
pub proof fn law_hex_round_trip(bytes: Seq<u8>)
    ensures
        hex_bytes(hex_text(bytes)) == Some(bytes),
    decreases bytes.len(),
{
    if bytes.len() > 0 {
        law_hex_round_trip(bytes.drop_last());
        let front = hex_text(bytes.drop_last());
        let s = hex_text(bytes);
        assert(s.take(s.len() - 2) =~= front);
        assert(bytes.drop_last().push(bytes.last()) =~= bytes);
    }
}

/// A pair that cannot be read spoils every text that begins with it.
proof fn lemma_hex_prefix(s: Seq<char>, i: int)
    requires
        0 <= i <= s.len(),
        i % 2 == 0,
        hex_bytes(s.take(i)) is None,
    ensures
        hex_bytes(s) is None,
    decreases s.len(),
{
    if i == s.len() {
        assert(s.take(i) =~= s);
    } else if s.len() - i == 1 {
        lemma_hex_odd(s);
    } else {
        let shorter = s.take(s.len() - 2);
        assert(shorter.take(i) =~= s.take(i));
        lemma_hex_prefix(shorter, i);
    }
}

proof fn lemma_hex_odd(s: Seq<char>)
    requires
        s.len() % 2 == 1,
    ensures
        hex_bytes(s) is None,
    decreases s.len(),
{
    if s.len() > 1 {
        lemma_hex_odd(s.take(s.len() - 2));
    }
}

/// Decode hexadecimal text, two characters to a byte.
pub fn decode_hex(text: &str) -> (r: Option<Vec<u8>>)
    ensures
        match r {
            Some(bytes) => hex_bytes(text@) == Some(bytes@),
            None => hex_bytes(text@) is None,
        },
{
    let chars = chars_of(text);
    let len: usize = chars.len();
    if len % 2 != 0 {
        proof {
            lemma_hex_odd(text@);
        }
        return None;
    }
    let mut out: Vec<u8> = Vec::new();
    let mut i: usize = 0;
    proof {
        assert(text@.take(0) =~= Seq::empty());
        assert(out@ =~= Seq::empty());
    }
    while i < len
        invariant
            i <= len == chars@.len(),
            i % 2 == 0,
            len % 2 == 0,
            chars@ == text@,
            hex_bytes(text@.take(i as int)) == Some(out@),
        decreases len - i,
    {
        let a: char = chars[i];
        let b: char = chars[i + 1];
        proof {
            let longer = text@.take(i + 2);
            assert(longer.take(longer.len() - 2) =~= text@.take(i as int));
            assert(longer[i as int] == a);
            assert(longer[i + 1] == b);
            if hex_pair(a, b) is None {
                lemma_hex_prefix(text@, i + 2);
            }
        }
        let low: u32 = match hex_digit_value(b) {
            Some(v) => v,
            None => {
                return None;
            },
        };
        let byte: u8 = if a == '+' {
            low as u8
        } else {
            match hex_digit_value(a) {
                Some(high) => (high * 16 + low) as u8,
                None => {
                    return None;
                },
            }
        };
        out.push(byte);
        i = i + 2;
    }
    proof {
        assert(text@.take(len as int) =~= text@);
    }
    Some(out)
}

} // verus!
