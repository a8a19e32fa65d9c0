//! How strings, numbers and nesting are read and written, sign by sign.

use crate::document::{escaped, escaped_char, quoted};
use crate::json::{
    digits_end, document, fault_position, hex_at, is_space, items_at, number_end, skip_space,
    string_rest, unicode_at, value_at, JsonFault,
};
use crate::text::hex_digit;
use vstd::prelude::*;
use vstd::utf8::encode_utf8;

verus! {

/// Law: the one-letter escapes are those of a quotation mark, a backslash, a
/// slash, a backspace, a form feed, a new line, a carriage return and a tab; no
/// other letter escapes anything.
pub proof fn law_one_letter_escapes(s: Seq<char>, i: int, acc: Seq<char>, k: int)
    requires
        0 <= i,
        i + 1 < s.len(),
        s[i] == '\\',
        s[i + 1] != 'u',
    ensures
        0 <= k < 8 && s[i + 1] == seq!['"', '\\', '/', 'b', 'f', 'n', 'r', 't'][k] ==> string_rest(
            s,
            i,
            acc,
        ) == string_rest(
            s,
            i + 2,
            acc.push(
                seq![
                    '"',
                    '\\',
                    '/',
                    '\u{8}',
                    '\u{c}',
                    '\n',
                    '\r',
                    '\t',
                ][k],
            ),
        ),
        !seq!['"', '\\', '/', 'b', 'f', 'n', 'r', 't'].contains(s[i + 1]) ==> string_rest(
            s,
            i,
            acc,
        ) is Err,
{
    let letters = seq!['"', '\\', '/', 'b', 'f', 'n', 'r', 't'];
    assert(letters[0] == '"' && letters[1] == '\\' && letters[2] == '/' && letters[3] == 'b'
        && letters[4] == 'f' && letters[5] == 'n' && letters[6] == 'r' && letters[7] == 't');
}

/// Law: a character of a string stands for itself, unless it is a quotation mark,
/// which ends the string, a backslash, or a control character, which is refused.
pub proof fn law_plain_characters_stand_for_themselves(s: Seq<char>, i: int, acc: Seq<char>)
    requires
        0 <= i < s.len(),
        s[i] != '\\',
    ensures
        s[i] == '"' ==> string_rest(s, i, acc) == Ok::<(Seq<char>, int), JsonFault>((acc, i + 1)),
        s[i] != '"' && s[i] as int >= 32 ==> string_rest(s, i, acc) == string_rest(
            s,
            i + 1,
            acc.push(s[i]),
        ),
        (s[i] as int) < 32 ==> string_rest(s, i, acc) is Err,
{
}

/// Four hexadecimal digits at `i` write a number below 65536.
pub open spec fn writes_unit(s: Seq<char>, i: int, unit: int) -> bool {
    &&& 0 <= unit < 65536
    &&& i + 4 <= s.len()
    &&& hex_digit(s[i]) == Some(unit / 4096)
    &&& hex_digit(s[i + 1]) == Some(unit / 256 % 16)
    &&& hex_digit(s[i + 2]) == Some(unit / 16 % 16)
    &&& hex_digit(s[i + 3]) == Some(unit % 16)
}

proof fn lemma_unit(s: Seq<char>, i: int, unit: int)
    requires
        0 <= i,
        writes_unit(s, i, unit),
    ensures
        hex_at(s, i, 4, 0) == Ok::<(int, int), JsonFault>((unit, i + 4)),
{
    reveal_with_fuel(hex_at, 5);
    assert(unit / 4096 * 16 + unit / 256 % 16 == unit / 256);
    assert(unit / 256 * 16 + unit / 16 % 16 == unit / 16);
    assert(unit / 16 * 16 + unit % 16 == unit);
}

/// Law: every character can be written with a `\u` escape. One below 65536 is
/// written with its number, any other with two: 55296 and 56320 with the upper
/// and the lower ten bits of what exceeds 65536. Reading this gives the
/// character.
pub proof fn law_unicode_escapes_are_read(s: Seq<char>, i: int, acc: Seq<char>, c: char)
    requires
        0 <= i,
        i + 6 <= s.len(),
        s[i] == '\\',
        s[i + 1] == 'u',
    ensures
        (c as int) < 65536 && writes_unit(s, i + 2, c as int) ==> string_rest(s, i, acc)
            == string_rest(s, i + 6, acc.push(c)),
        c as int >= 65536 && writes_unit(s, i + 2, 55296 + (c as int - 65536) / 1024) && i + 12
            <= s.len() && s[i + 6] == '\\' && s[i + 7] == 'u' && writes_unit(
            s,
            i + 8,
            56320 + (c as int - 65536) % 1024,
        ) ==> string_rest(s, i, acc) == string_rest(s, i + 12, acc.push(c)),
{
    let v = c as int;
    if v < 65536 {
        if writes_unit(s, i + 2, v) {
            lemma_unit(s, i + 2, v);
            assert(unicode_at(s, i + 2) == Ok::<(char, int), JsonFault>((c, i + 6)));
        }
    } else {
        let high = 55296 + (v - 65536) / 1024;
        let low = 56320 + (v - 65536) % 1024;
        if writes_unit(s, i + 2, high) && i + 12 <= s.len() && s[i + 6] == '\\' && s[i + 7] == 'u'
            && writes_unit(s, i + 8, low) {
            lemma_unit(s, i + 2, high);
            lemma_unit(s, i + 8, low);
            assert(65536 + (high - 55296) * 1024 + (low - 56320) == v);
            assert(unicode_at(s, i + 2) == Ok::<(char, int), JsonFault>((c, i + 12)));
        }
    }
}

/// Law: half of a pair is no character. A number from 55296 to 56319 that no
/// second one follows, a second one outside 56320 to 57343, and one of those
/// without a first are refused.
pub proof fn law_unpaired_halves_are_refused(
    s: Seq<char>,
    i: int,
    acc: Seq<char>,
    unit: int,
    second: int,
)
    requires
        0 <= i,
        i + 6 <= s.len(),
        s[i] == '\\',
        s[i + 1] == 'u',
        writes_unit(s, i + 2, unit),
    ensures
        56320 <= unit <= 57343 ==> string_rest(s, i, acc) is Err,
        55296 <= unit <= 56319 && !(i + 7 < s.len() && s[i + 6] == '\\' && s[i + 7] == 'u')
            ==> string_rest(s, i, acc) is Err,
        55296 <= unit <= 56319 && i + 12 <= s.len() && writes_unit(s, i + 8, second) && !(56320
            <= second <= 57343) ==> string_rest(s, i, acc) is Err,
{
    lemma_unit(s, i + 2, unit);
    if 55296 <= unit <= 56319 && i + 12 <= s.len() && writes_unit(s, i + 8, second) {
        lemma_unit(s, i + 8, second);
    }
}

/// Law: white space is the space, the tab, the line feed and the carriage return.
pub proof fn law_white_space(s: Seq<char>, i: int)
    requires
        0 <= i < s.len(),
    ensures
        is_space(s[i]) <==> s[i] as int == 32 || s[i] as int == 9 || s[i] as int == 10 || s[i] as int
            == 13,
        is_space(s[i]) ==> skip_space(s, i) == skip_space(s, i + 1),
        !is_space(s[i]) ==> skip_space(s, i) == i,
{
}

/// Digits that end at `j` are skipped up to there.
proof fn lemma_digits_run(s: Seq<char>, i: int, j: int)
    requires
        0 <= i <= j <= s.len(),
        forall|k: int| i <= k < j ==> '0' <= #[trigger] s[k] <= '9',
        !(j < s.len() && '0' <= s[j] <= '9'),
    ensures
        digits_end(s, i) == j,
    decreases j - i,
{
    if i < j {
        assert('0' <= s[i] <= '9');
        lemma_digits_run(s, i + 1, j);
    }
}

/// Law: a number is an optional minus sign, digits without a leading zero (or a
/// zero alone), an optional fraction and an optional exponent, each with at least
/// one digit; all of it is read, and nothing more. The integer part begins at
/// `p` and ends at `a`, the fraction ends at `b`, the exponent's digits begin at
/// `q`, and the number ends at `j`.
pub proof fn law_numbers_are_read_whole(
    s: Seq<char>,
    i: int,
    p: int,
    a: int,
    b: int,
    q: int,
    j: int,
)
    requires
        0 <= i <= p < a <= b <= j <= s.len(),
        p == if s[i] == '-' {
            i + 1
        } else {
            i
        },
        forall|k: int| p <= k < a ==> '0' <= #[trigger] s[k] <= '9',
        s[p] != '0' || a == p + 1,
        b > a ==> s[a] == '.' && b > a + 1,
        b == a ==> !(a < s.len() && s[a] == '.'),
        forall|k: int| a < k < b ==> '0' <= #[trigger] s[k] <= '9',
        j > b ==> (s[b] == 'e' || s[b] == 'E') && b < q < j,
        j > b ==> q == if s[b + 1] == '+' || s[b + 1] == '-' {
            b + 2
        } else {
            b + 1
        },
        j == b ==> !(b < s.len() && (s[b] == 'e' || s[b] == 'E')),
        forall|k: int| b < k < j && q <= k ==> '0' <= #[trigger] s[k] <= '9',
        !(a < s.len() && '0' <= s[a] <= '9'),
        !(b < s.len() && '0' <= s[b] <= '9'),
        !(j < s.len() && '0' <= s[j] <= '9'),
    ensures
        number_end(s, i) == Ok::<int, JsonFault>(j),
{
    assert('0' <= s[p] <= '9');
    if s[p] != '0' {
        lemma_digits_run(s, p, a);
    }
    if b > a {
        assert('0' <= s[a + 1] <= '9');
        lemma_digits_run(s, a + 1, b);
    }
    if j > b {
        assert('0' <= s[q] <= '9');
        lemma_digits_run(s, q, j);
    }
}

/// Law: text that needs no escape is written as it is, between quotation marks.
pub proof fn law_plain_text_is_written_as_it_is(s: Seq<char>)
    requires
        forall|i: int|
            0 <= i < s.len() ==> #[trigger] s[i] as int >= 32 && s[i] != '"' && s[i] != '\\',
    ensures
        quoted(s) == seq!['"'] + s + seq!['"'],
    decreases s.len(),
{
    lemma_escaped_plain(s);
}

proof fn lemma_escaped_plain(s: Seq<char>)
    requires
        forall|i: int|
            0 <= i < s.len() ==> #[trigger] s[i] as int >= 32 && s[i] != '"' && s[i] != '\\',
    ensures
        escaped(s) == s,
    decreases s.len(),
{
    if s.len() > 0 {
        let front = s.drop_last();
        assert forall|i: int| 0 <= i < front.len() implies #[trigger] front[i] as int >= 32
            && front[i] != '"' && front[i] != '\\' by {
            assert(front[i] == s[i]);
        }
        lemma_escaped_plain(front);
        assert(s.last() == s[s.len() - 1]);
        assert(escaped(s) =~= s);
    } else {
        assert(escaped(s) =~= s);
    }
}

/// Law: a text is written character by character, and a control character is
/// written as a backslash and a letter where there is a common one (new line,
/// carriage return, tab), and with four hexadecimal digits in lower case
/// otherwise.
pub proof fn law_control_characters_are_escaped(s: Seq<char>, c: char)
    ensures
        escaped(s.push(c)) == escaped(s) + escaped_char(c),
        c == '"' || c == '\\' ==> escaped_char(c) == seq!['\\', c],
        c as int == 10 ==> escaped_char(c) == seq!['\\', 'n'],
        c as int == 13 ==> escaped_char(c) == seq!['\\', 'r'],
        c as int == 9 ==> escaped_char(c) == seq!['\\', 't'],
        (c as int) < 32 && c as int != 10 && c as int != 13 && c as int != 9 ==> escaped_char(c)
            == "\\u00"@ + seq![
            "0123456789abcdef"@[c as int / 16],
            "0123456789abcdef"@[c as int % 16],
        ],
{
    reveal_strlit("\\u00");
    reveal_strlit("0123456789abcdef");
    assert(s.push(c).drop_last() =~= s);
    if (c as int) < 32 && c as int != 10 && c as int != 13 && c as int != 9 {
        assert(escaped_char(c) =~= "\\u00"@ + seq![
            "0123456789abcdef"@[c as int / 16],
            "0123456789abcdef"@[c as int % 16],
        ]);
    }
}

/// `n` opening brackets and as many closing ones.
pub open spec fn nested_arrays(n: int) -> Seq<char> {
    Seq::new(
        (2 * n) as nat,
        |i: int|
            if i < n {
                '['
            } else {
                ']'
            },
    )
}

proof fn lemma_nested(n: int, k: int)
    requires
        0 <= k < n,
    ensures
        n <= 65 ==> (value_at(nested_arrays(n), k, k) matches Ok((_, end)) && end == 2 * n - k),
        n > 65 && k <= 65 ==> value_at(nested_arrays(n), k, k) is Err,
    decreases n - k,
{
    let s = nested_arrays(n);
    assert(s[k] == '[');
    if k <= 64 {
        if k + 1 == n {
            assert(s[k + 1] == ']');
            assert(skip_space(s, k + 1) == k + 1);
        } else {
            lemma_nested(n, k + 1);
            assert(s[k + 1] == '[');
            assert(skip_space(s, k + 1) == k + 1);
            if n <= 65 {
                let end = 2 * n - (k + 1);
                assert(s[end] == ']');
                assert(skip_space(s, end) == end);
            }
            assert(value_at(s, k, k) == items_at(s, k + 1, k, Seq::empty()));
        }
    }
}

/// Law: containers are read up to 65 deep and no deeper.
pub proof fn law_nesting_has_a_limit(n: int)
    requires
        0 < n,
    ensures
        document(nested_arrays(n)) is Ok <==> n <= 65,
{
    let s = nested_arrays(n);
    lemma_nested(n, 0);
    assert(s[0] == '[');
    assert(skip_space(s, 0) == 0);
    if n <= 65 {
        assert(skip_space(s, 2 * n) == 2 * n);
    }
}

/// Law: a fault is placed by the bytes in front of its character; where the
/// character was taken, one byte further on.
pub proof fn law_faults_are_placed_in_bytes(front: Seq<char>, rest: Seq<char>, message: Seq<char>)
    ensures
        ({
            let index = front.len() as int;
            let before = JsonFault { index, consumed: false, message };
            let behind = JsonFault { index, consumed: true, message };
            &&& fault_position(front + rest, before) == encode_utf8(front).len()
            &&& fault_position(front + rest, behind) == encode_utf8(front).len() + 1
        }),
{
    assert((front + rest).take(front.len() as int) =~= front);
}

} // verus!
