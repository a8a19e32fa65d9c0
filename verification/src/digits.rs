//! Numbers and bytes as digits, place by place.

use crate::text::{
    all_digits, dec_text, dec_value, hex_bytes, hex_char, hex_digit, hex_pair, hex_text, is_digit,
    law_decimal_round_trip, read_unsigned,
};
use vstd::arithmetic::div_mod::{lemma_div_basics, lemma_div_denominator, lemma_fundamental_div_mod};
use vstd::arithmetic::power::{lemma_pow0, lemma_pow1, lemma_pow_adds, lemma_pow_positive, pow};
use vstd::prelude::*;

verus! {

/// Dividing by ten once more is dividing by the next power.
proof fn lemma_next_power(v: int, j: int)
    requires
        0 <= v,
        0 <= j,
    ensures
        pow(10, (j + 1) as nat) == 10 * pow(10, j as nat),
        v / pow(10, (j + 1) as nat) == (v / 10) / pow(10, j as nat),
{
    lemma_pow1(10);
    lemma_pow_adds(10, 1, j as nat);
    lemma_pow_positive(10, j as nat);
    lemma_div_denominator(v, 10, pow(10, j as nat));
}

/// The text writes the number `v` in base ten, one digit for each place.
pub open spec fn writes_decimal(s: Seq<char>, v: int) -> bool {
    &&& s.len() > 0
    &&& 0 <= v < pow(10, s.len())
    &&& forall|i: int|
        0 <= i < s.len() ==> #[trigger] s[i] == "0123456789"@[(v / pow(
            10,
            (s.len() - 1 - i) as nat,
        )) % 10]
}

/// Law: the decimal text of a number has its digits in base ten, the most
/// significant first, and no more of them than it takes.
pub proof fn law_decimal_text_is_positional(n: nat)
    ensures
        writes_decimal(dec_text(n), n as int),
        n > 0 ==> pow(10, (dec_text(n).len() - 1) as nat) <= n,
        n == 0 ==> dec_text(n).len() == 1,
    decreases n,
{
    reveal_strlit("0123456789");
    let s = dec_text(n);
    lemma_pow0(10);
    lemma_pow1(10);
    lemma_div_basics(n as int);
    if n >= 10 {
        let front = dec_text(n / 10);
        law_decimal_text_is_positional(n / 10);
        law_decimal_round_trip(n / 10);
        lemma_fundamental_div_mod(n as int, 10);
        lemma_next_power(n as int, front.len() - 1);
        lemma_next_power(n as int, front.len() as int);
        assert forall|i: int| 0 <= i < s.len() implies #[trigger] s[i] == "0123456789"@[(n as int
            / pow(10, (s.len() - 1 - i) as nat)) % 10] by {
            if i < front.len() {
                lemma_next_power(n as int, front.len() - 1 - i);
                assert(s[i] == front[i]);
            }
        }
    }
}

/// Law: decimal digits are read by their places. The digits of any number, with
/// leading zeros or without, stand for that number.
pub proof fn law_decimal_value_is_positional(s: Seq<char>, v: int)
    requires
        writes_decimal(s, v),
    ensures
        all_digits(s),
        dec_value(s) == v,
    decreases s.len(),
{
    reveal_strlit("0123456789");
    let k = s.len() as int;
    let rest = s.drop_last();
    lemma_pow0(10);
    lemma_pow1(10);
    lemma_div_basics(v);
    lemma_fundamental_div_mod(v, 10);
    lemma_next_power(v, k - 1);
    assert(s.last() == s[k - 1]);
    assert forall|i: int| 0 <= i < k implies is_digit(#[trigger] s[i]) by {
        let digit = (v / pow(10, (k - 1 - i) as nat)) % 10;
        assert(0 <= digit < 10);
    }
    if k > 1 {
        assert forall|i: int| 0 <= i < k - 1 implies #[trigger] rest[i] == "0123456789"@[((v / 10)
            / pow(10, (k - 1 - 1 - i) as nat)) % 10] by {
            lemma_next_power(v, k - 2 - i);
            assert(rest[i] == s[i]);
        }
        law_decimal_value_is_positional(rest, v / 10);
    } else {
        assert(dec_value(rest) == 0);
    }
}

/// Law: the digits of a number are read as that number where it is not too
/// large, with a plus sign in front of them or without, and are refused where it
/// is.
pub proof fn law_digits_are_read(s: Seq<char>, v: int, max: nat)
    requires
        writes_decimal(s, v),
    ensures
        v <= max ==> read_unsigned(s, max) == Some(v as nat),
        v <= max ==> read_unsigned(seq!['+'] + s, max) == Some(v as nat),
        v > max ==> read_unsigned(s, max) is None,
        v > max ==> read_unsigned(seq!['+'] + s, max) is None,
{
    law_decimal_value_is_positional(s, v);
    assert(is_digit(s[0]));
    assert((seq!['+'] + s).skip(1) =~= s);
}

/// Law: nothing but digits, with or without one plus sign in front of them, is
/// read as a number.
pub proof fn law_only_digits_are_read(s: Seq<char>, max: nat, i: int)
    requires
        read_unsigned(s, max) is Some,
        0 <= i < s.len(),
    ensures
        '0' <= s[i] <= '9' || i == 0 && s[i] == '+' && s.len() > 1,
        read_unsigned(s, max)->0 <= max,
{
    if s[0] == '+' {
        let digits = s.skip(1);
        if i > 0 {
            assert(is_digit(digits[i - 1]));
        }
    } else {
        assert(is_digit(s[i]));
    }
}

/// Law: the sixteen hexadecimal digits stand for their places in the list of
/// them, in either case, and no other character is one.
pub proof fn law_hexadecimal_digits(digit: int, c: char)
    requires
        0 <= digit < 16,
    ensures
        hex_char(digit) == "0123456789abcdef"@[digit],
        hex_digit("0123456789abcdef"@[digit]) == Some(digit),
        hex_digit("0123456789ABCDEF"@[digit]) == Some(digit),
        hex_digit(c) matches Some(value) ==> 0 <= value < 16 && (c
            == "0123456789abcdef"@[value] || c == "0123456789ABCDEF"@[value]),
{
    reveal_strlit("0123456789abcdef");
    reveal_strlit("0123456789ABCDEF");
}

/// Law: the hexadecimal text of bytes has two digits for each byte, the upper
/// four bits first.
pub proof fn law_hexadecimal_text_is_positional(bytes: Seq<u8>, i: int)
    requires
        0 <= i < bytes.len(),
    ensures
        hex_text(bytes).len() == 2 * bytes.len(),
        hex_text(bytes)[2 * i] == "0123456789abcdef"@[bytes[i] as int / 16],
        hex_text(bytes)[2 * i + 1] == "0123456789abcdef"@[bytes[i] as int % 16],
    decreases bytes.len(),
{
    let front = bytes.drop_last();
    reveal_strlit("0123456789abcdef");
    if front.len() > 0 {
        law_hexadecimal_text_is_positional(front, if i < front.len() { i } else { 0 });
    } else {
        assert(hex_text(front).len() == 0);
    }
}

/// Law: hexadecimal text is read two characters to a byte, the upper four bits
/// first; where a plus sign stands in their place they are zero.
pub proof fn law_hexadecimal_pairs_are_read(s: Seq<char>, bytes: Seq<u8>, i: int)
    requires
        hex_bytes(s) == Some(bytes),
        0 <= i < bytes.len(),
    ensures
        s.len() == 2 * bytes.len(),
        hex_digit(s[2 * i + 1]) is Some,
        s[2 * i] == '+' || hex_digit(s[2 * i]) is Some,
        bytes[i] == hex_digit(s[2 * i + 1])->0 + if s[2 * i] == '+' {
            0
        } else {
            16 * hex_digit(s[2 * i])->0
        },
    decreases s.len(),
{
    let shorter = s.take(s.len() - 2);
    let front = hex_bytes(shorter)->0;
    let pair = hex_pair(s[s.len() - 2], s[s.len() - 1]);
    assert(bytes == front.push(pair->0));
    if front.len() > 0 {
        law_hexadecimal_pairs_are_read(shorter, front, if i < front.len() { i } else { 0 });
    } else {
        assert(shorter.len() == 0) by {
            if shorter.len() > 1 {
                assert(front.len() > 0);
            }
        }
    }
}

/// Law: every text of hexadecimal digits, in either case and as many as make
/// pairs, is read.
pub proof fn law_hexadecimal_digits_are_read(s: Seq<char>)
    requires
        s.len() % 2 == 0,
        forall|i: int| 0 <= i < s.len() ==> hex_digit(#[trigger] s[i]) is Some,
    ensures
        hex_bytes(s) is Some,
    decreases s.len(),
{
    if s.len() > 0 {
        let shorter = s.take(s.len() - 2);
        assert forall|i: int| 0 <= i < shorter.len() implies hex_digit(
            #[trigger] shorter[i],
        ) is Some by {
            assert(shorter[i] == s[i]);
        }
        law_hexadecimal_digits_are_read(shorter);
        assert(hex_digit(s[s.len() - 2]) is Some);
        assert(hex_digit(s[s.len() - 1]) is Some);
    }
}

} // verus!
