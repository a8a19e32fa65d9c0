//! White space between the tokens of a JSON document has no say in its value.

use crate::json::{
    digit_at, digits_end, document, exponent_end, fraction_end, hex_at, integer_end, is_space,
    items_at, lemma_skip_space, lemma_string_rest, lemma_unicode_at, lemma_value_bounds, members_at,
    number_end, simple_escape, skip_space, string_at, string_rest, unicode_at, value_at, word_at,
    JsonFault, JsonValue,
};
use crate::text::hex_digit;
use vstd::prelude::*;

verus! {

/// The text from `i` on without its white space, but for that inside strings;
/// `i` itself lies inside a string or it does not.
pub open spec fn stripped(s: Seq<char>, i: int, in_string: bool) -> Seq<char>
    decreases s.len() - i,
        when 0 <= i
{
    if i >= s.len() {
        Seq::empty()
    } else if in_string {
        if s[i] == '\\' && i + 1 < s.len() {
            seq![s[i], s[i + 1]] + stripped(s, i + 2, true)
        } else {
            seq![s[i]] + stripped(s, i + 1, s[i] != '"')
        }
    } else if is_space(s[i]) {
        stripped(s, i + 1, false)
    } else {
        seq![s[i]] + stripped(s, i + 1, s[i] == '"')
    }
}

/// What is left of `u` at `p` is what is left of `s` at `i`, stripped.
spec fn follows(s: Seq<char>, i: int, u: Seq<char>, p: int, in_string: bool) -> bool {
    &&& 0 <= i <= s.len()
    &&& 0 <= p <= u.len()
    &&& u.skip(p) == stripped(s, i, in_string)
}

/// `u` goes on with `front`.
proof fn lemma_goes_on(u: Seq<char>, p: int, front: Seq<char>, rest: Seq<char>)
    requires
        0 <= p <= u.len(),
        u.skip(p) == front + rest,
    ensures
        p + front.len() <= u.len(),
        forall|k: int| 0 <= k < front.len() ==> u[p + k] == #[trigger] front[k],
        u.skip(p + front.len()) == rest,
{
    let tail = u.skip(p);
    assert(tail.len() == front.len() + rest.len());
    assert forall|k: int| 0 <= k < front.len() implies u[p + k] == #[trigger] front[k] by {
        assert(tail[k] == u[p + k]);
        assert((front + rest)[k] == front[k]);
    }
    assert(u.skip(p + front.len()) =~= rest) by {
        assert forall|k: int| 0 <= k < rest.len() implies u.skip(p + front.len())[k] == rest[k] by {
            assert(tail[front.len() + k] == u[p + front.len() + k]);
            assert((front + rest)[front.len() + k] == rest[k]);
        }
    }
}

/// One character outside of strings that is no white space.
proof fn lemma_step(s: Seq<char>, i: int, u: Seq<char>, p: int)
    requires
        follows(s, i, u, p, false),
        i < s.len(),
        !is_space(s[i]),
    ensures
        p < u.len(),
        u[p] == s[i],
        follows(s, i + 1, u, p + 1, s[i] == '"'),
{
    lemma_goes_on(u, p, seq![s[i]], stripped(s, i + 1, s[i] == '"'));
    assert(u[p + 0] == seq![s[i]][0]);
}

/// White space is passed over in `s`, and there is none in `u`.
proof fn lemma_pass_space(s: Seq<char>, i: int, u: Seq<char>, p: int)
    requires
        follows(s, i, u, p, false),
    ensures
        follows(s, skip_space(s, i), u, p, false),
        i <= skip_space(s, i) <= s.len(),
        skip_space(u, p) == p,
        skip_space(s, i) < s.len() ==> p < u.len() && u[p] == s[skip_space(s, i)],
        skip_space(s, i) == s.len() ==> p == u.len(),
    decreases s.len() - i,
{
    lemma_skip_space(s, i);
    if i < s.len() && is_space(s[i]) {
        lemma_pass_space(s, i + 1, u, p);
    } else if i < s.len() {
        lemma_step(s, i, u, p);
    } else {
        assert(u.skip(p).len() == 0);
    }
}

/// Characters that are neither white space nor quotes stand in `u` as in `s`.
proof fn lemma_copy(s: Seq<char>, i: int, u: Seq<char>, p: int, n: int)
    requires
        follows(s, i, u, p, false),
        0 <= n,
        i + n <= s.len(),
        forall|k: int| i <= k < i + n ==> !is_space(#[trigger] s[k]) && s[k] != '"',
    ensures
        follows(s, i + n, u, p + n, false),
        forall|k: int| 0 <= k < n ==> #[trigger] u[p + k] == s[i + k],
    decreases n,
{
    if n > 0 {
        lemma_copy(s, i, u, p, n - 1);
        let last = i + n - 1;
        assert(!is_space(s[last]) && s[last] != '"');
        lemma_step(s, last, u, p + n - 1);
    }
}

/// Digits of an escape stand in `u` as in `s`.
proof fn lemma_hex(s: Seq<char>, i: int, count: nat, acc: int, u: Seq<char>, p: int)
    requires
        follows(s, i, u, p, true),
        0 <= acc,
        hex_at(s, i, count, acc) is Ok,
    ensures
        ({
            let (v, j) = hex_at(s, i, count, acc)->Ok_0;
            &&& hex_at(u, p, count, acc) == Ok::<(int, int), JsonFault>((v, p + (j - i)))
            &&& follows(s, j, u, p + (j - i), true)
            &&& i <= j
        }),
    decreases count,
{
    if count > 0 {
        let d = hex_digit(s[i])->0;
        assert(s[i] != '"' && s[i] != '\\');
        lemma_goes_on(u, p, seq![s[i]], stripped(s, i + 1, true));
        assert(u[p + 0] == seq![s[i]][0]);
        lemma_hex(s, i + 1, (count - 1) as nat, acc * 16 + d, u, p + 1);
    }
}

/// A pair of characters that starts with a backslash stands in `u` as in `s`.
proof fn lemma_pair(s: Seq<char>, i: int, u: Seq<char>, p: int)
    requires
        follows(s, i, u, p, true),
        i + 1 < s.len(),
        s[i] == '\\',
    ensures
        p + 1 < u.len(),
        u[p] == s[i],
        u[p + 1] == s[i + 1],
        follows(s, i + 2, u, p + 2, true),
{
    let front = seq![s[i], s[i + 1]];
    lemma_goes_on(u, p, front, stripped(s, i + 2, true));
    assert(u[p + 0] == front[0]);
    assert(u[p + 1] == front[1]);
}

proof fn lemma_unicode(s: Seq<char>, i: int, u: Seq<char>, p: int)
    requires
        follows(s, i, u, p, true),
        unicode_at(s, i) is Ok,
    ensures
        ({
            let (c, j) = unicode_at(s, i)->Ok_0;
            &&& unicode_at(u, p) == Ok::<(char, int), JsonFault>((c, p + (j - i)))
            &&& follows(s, j, u, p + (j - i), true)
            &&& i < j
        }),
{
    lemma_unicode_at(s, i);
    lemma_hex(s, i, 4, 0, u, p);
    let (high, j) = hex_at(s, i, 4, 0)->Ok_0;
    if 0xD800 <= high <= 0xDBFF {
        lemma_pair(s, j, u, p + (j - i));
        lemma_hex(s, j + 2, 4, 0, u, p + (j - i) + 2);
    }
}

/// The rest of a string stands in `u` as in `s`.
proof fn lemma_string(s: Seq<char>, i: int, acc: Seq<char>, u: Seq<char>, p: int)
    requires
        follows(s, i, u, p, true),
        string_rest(s, i, acc) is Ok,
    ensures
        ({
            let (text, j) = string_rest(s, i, acc)->Ok_0;
            &&& string_rest(u, p, acc) == Ok::<(Seq<char>, int), JsonFault>((text, p + (j - i)))
            &&& follows(s, j, u, p + (j - i), false)
            &&& i < j
        }),
    decreases s.len() - i,
{
    if s[i] == '\\' {
        lemma_pair(s, i, u, p);
        if s[i + 1] == 'u' {
            lemma_unicode(s, i + 2, u, p + 2);
            let (c, j) = unicode_at(s, i + 2)->Ok_0;
            lemma_string(s, j, acc.push(c), u, p + 2 + (j - (i + 2)));
        } else {
            let c = simple_escape(s[i + 1])->0;
            lemma_string(s, i + 2, acc.push(c), u, p + 2);
        }
    } else {
        lemma_goes_on(u, p, seq![s[i]], stripped(s, i + 1, s[i] != '"'));
        assert(u[p + 0] == seq![s[i]][0]);
        if s[i] != '"' {
            lemma_string(s, i + 1, acc.push(s[i]), u, p + 1);
        }
    }
}

/// What may stand behind a value: a comma, the end of a container, or nothing.
spec fn stops(s: Seq<char>, i: int) -> bool {
    i >= s.len() || s[i] == ',' || s[i] == ']' || s[i] == '}'
}

/// Where digits end is no digit; before that there is nothing else.
proof fn lemma_digits(s: Seq<char>, i: int)
    requires
        0 <= i,
    ensures
        !digit_at(s, digits_end(s, i)),
        forall|k: int| i <= k < digits_end(s, i) ==> digit_at(s, k),
        i <= digits_end(s, i),
        i <= s.len() ==> digits_end(s, i) <= s.len(),
    decreases s.len() - i,
{
    if digit_at(s, i) {
        lemma_digits(s, i + 1);
    }
}

/// A run of digits that stands in `u` too ends there as well.
proof fn lemma_digits_copied(s: Seq<char>, i: int, u: Seq<char>, p: int)
    requires
        0 <= i <= s.len(),
        0 <= p,
        p + (digits_end(s, i) - i) <= u.len(),
        forall|k: int| 0 <= k < digits_end(s, i) - i ==> #[trigger] u[p + k] == s[i + k],
        !digit_at(u, p + (digits_end(s, i) - i)),
    ensures
        digits_end(u, p) == p + (digits_end(s, i) - i),
    decreases s.len() - i,
{
    lemma_digits(s, i);
    if digit_at(s, i) {
        lemma_digits(s, i + 1);
        assert(u[p + 0] == s[i + 0]);
        assert forall|k: int| 0 <= k < digits_end(s, i + 1) - (i + 1) implies #[trigger] u[p + 1
            + k] == s[i + 1 + k] by {
            assert(u[p + (k + 1)] == s[i + (k + 1)]);
        }
        lemma_digits_copied(s, i + 1, u, p + 1);
    }
}

/// The characters of a number.
spec fn in_number(c: char) -> bool {
    '0' <= c <= '9' || c == '-' || c == '+' || c == '.' || c == 'e' || c == 'E'
}

/// The parts of a number and the characters in them.
proof fn lemma_number_parts(s: Seq<char>, i: int)
    requires
        0 <= i < s.len(),
        number_end(s, i) is Ok,
    ensures
        ({
            let j = integer_end(s, i)->Ok_0;
            let k = fraction_end(s, j)->Ok_0;
            let e = number_end(s, i)->Ok_0;
            &&& i < j <= k <= e <= s.len()
            &&& forall|c: int| i <= c < e ==> in_number(#[trigger] s[c])
        }),
{
    let first = if s[i] == '-' {
        i + 1
    } else {
        i
    };
    lemma_digits(s, first);
    let j = integer_end(s, i)->Ok_0;
    lemma_digits(s, j + 1);
    let k = fraction_end(s, j)->Ok_0;
    lemma_digits(s, k + 1);
    lemma_digits(s, k + 2);
    let e = number_end(s, i)->Ok_0;
    assert forall|c: int| i <= c < e implies in_number(#[trigger] s[c]) by {
        if c < j {
            if s[first] != '0' && c >= first {
                assert(digit_at(s, c));
            }
        } else if c < k {
            if c > j {
                assert(digit_at(s, c));
            }
        } else if c > k + 1 {
            assert(digit_at(s, c));
        } else if c == k + 1 {
            assert(digit_at(s, c) || s[c] == '+' || s[c] == '-');
        }
    }
}

/// A number that stands in `u` too, and that something else follows there, is
/// read there as in `s`.
#[verifier::rlimit(30)]
proof fn lemma_number(s: Seq<char>, i: int, u: Seq<char>, p: int)
    requires
        0 <= i < s.len(),
        0 <= p,
        number_end(s, i) is Ok,
        p + (number_end(s, i)->Ok_0 - i) <= u.len(),
        forall|k: int|
            0 <= k < number_end(s, i)->Ok_0 - i ==> #[trigger] u[p + k] == s[i + k],
        stops(u, p + (number_end(s, i)->Ok_0 - i)),
    ensures
        number_end(u, p) == Ok::<int, JsonFault>(p + (number_end(s, i)->Ok_0 - i)),
{
    lemma_number_parts(s, i);
    let j = integer_end(s, i)->Ok_0;
    let k = fraction_end(s, j)->Ok_0;
    let e = number_end(s, i)->Ok_0;
    let shift = p - i;
    assert forall|c: int| i <= c < e implies #[trigger] s[c] == u[c + shift] by {
        assert(u[p + (c - i)] == s[i + (c - i)]);
    }
    let first = if s[i] == '-' {
        i + 1
    } else {
        i
    };
    lemma_digits(s, first + 1);
    assert(first < j);
    assert(s[i] == u[p]);
    assert(s[first] == u[first + shift]);
    assert(integer_end(u, p) == Ok::<int, JsonFault>(j + shift)) by {
        if s[first] != '0' {
            lemma_digits(s, first);
            assert forall|c: int| 0 <= c < digits_end(s, first) - first implies #[trigger] u[first
                + shift + c] == s[first + c] by {
                assert(s[first + c] == u[(first + c) + shift]);
            }
            if j < e {
                assert(s[j] == u[j + shift]);
            }
            lemma_digits_copied(s, first, u, first + shift);
        }
    }
    assert(fraction_end(u, j + shift) == Ok::<int, JsonFault>(k + shift)) by {
        if j < e {
            assert(s[j] == u[j + shift]);
            if s[j] == '.' {
                lemma_digits(s, j + 1);
                assert(s[j + 1] == u[j + 1 + shift]);
                assert forall|c: int| 0 <= c < digits_end(s, j + 1) - (j + 1) implies #[trigger] u[j
                    + 1 + shift + c] == s[j + 1 + c] by {
                    assert(s[j + 1 + c] == u[(j + 1 + c) + shift]);
                }
                if k < e {
                    assert(s[k] == u[k + shift]);
                }
                lemma_digits_copied(s, j + 1, u, j + 1 + shift);
            }
        }
    }
    assert(exponent_end(u, k + shift) == Ok::<int, JsonFault>(e + shift)) by {
        if k < e {
            assert(s[k] == u[k + shift]);
            let d = if k + 1 < s.len() && (s[k + 1] == '+' || s[k + 1] == '-') {
                k + 2
            } else {
                k + 1
            };
            lemma_digits(s, d);
            assert(d < e);
            assert(s[k + 1] == u[k + 1 + shift]);
            assert(s[d] == u[d + shift]);
            assert forall|c: int| 0 <= c < digits_end(s, d) - d implies #[trigger] u[d + shift + c]
                == s[d + c] by {
                assert(s[d + c] == u[(d + c) + shift]);
            }
            lemma_digits_copied(s, d, u, d + shift);
        }
    }
}

/// A fixed word stands in `u` as in `s`.
proof fn lemma_word(s: Seq<char>, i: int, u: Seq<char>, p: int, word: Seq<char>)
    requires
        follows(s, i, u, p, false),
        word_at(s, i, word),
        forall|k: int| 0 <= k < word.len() ==> !is_space(#[trigger] word[k]) && word[k] != '"',
    ensures
        word_at(u, p, word),
        follows(s, i + word.len(), u, p + word.len(), false),
{
    let n = word.len() as int;
    assert forall|k: int| i <= k < i + n implies !is_space(#[trigger] s[k]) && s[k] != '"' by {
        assert(s.subrange(i, i + n)[k - i] == word[k - i]);
    }
    lemma_copy(s, i, u, p, n);
    assert(u.subrange(p, p + n) =~= word) by {
        assert forall|k: int| 0 <= k < n implies u.subrange(p, p + n)[k] == word[k] by {
            assert(u[p + k] == s[i + k]);
            assert(s.subrange(i, i + n)[k] == word[k]);
        }
    }
}

/// A value that something else follows is read in `u` as in `s`.
proof fn lemma_value(s: Seq<char>, i: int, depth: int, u: Seq<char>, p: int) -> (q: int)
    requires
        follows(s, i, u, p, false),
        value_at(s, i, depth) is Ok,
        stops(s, skip_space(s, value_at(s, i, depth)->Ok_0.1)),
    ensures
        value_at(u, p, depth) == Ok::<(JsonValue, int), JsonFault>(
            (value_at(s, i, depth)->Ok_0.0, q),
        ),
        follows(s, value_at(s, i, depth)->Ok_0.1, u, q, false),
        p <= q,
    decreases s.len() - i, 0int,
{
    let (value, j) = value_at(s, i, depth)->Ok_0;
    lemma_value_bounds(s, i, depth);
    reveal_strlit("true");
    reveal_strlit("false");
    reveal_strlit("null");
    if s[i] == '{' {
        lemma_step(s, i, u, p);
        lemma_pass_space(s, i + 1, u, p + 1);
        let k = skip_space(s, i + 1);
        if k < s.len() && s[k] == '}' {
            lemma_step(s, k, u, p + 1);
            p + 2
        } else {
            lemma_members(s, i + 1, depth, Seq::empty(), u, p + 1)
        }
    } else if s[i] == '[' {
        lemma_step(s, i, u, p);
        lemma_pass_space(s, i + 1, u, p + 1);
        let k = skip_space(s, i + 1);
        if k < s.len() && s[k] == ']' {
            lemma_step(s, k, u, p + 1);
            p + 2
        } else {
            lemma_items(s, i + 1, depth, Seq::empty(), u, p + 1)
        }
    } else if s[i] == '"' {
        lemma_step(s, i, u, p);
        lemma_string(s, i + 1, Seq::empty(), u, p + 1);
        p + (j - i)
    } else if s[i] == 't' {
        lemma_step(s, i, u, p);
        lemma_word(s, i, u, p, "true"@);
        p + (j - i)
    } else if s[i] == 'f' {
        lemma_step(s, i, u, p);
        lemma_word(s, i, u, p, "false"@);
        p + (j - i)
    } else if s[i] == 'n' {
        lemma_step(s, i, u, p);
        lemma_word(s, i, u, p, "null"@);
        p + (j - i)
    } else {
        lemma_step(s, i, u, p);
        lemma_number_parts(s, i);
        assert forall|k: int| i <= k < i + (j - i) implies !is_space(#[trigger] s[k]) && s[k]
            != '"' by {
            assert(in_number(s[k]));
        }
        lemma_copy(s, i, u, p, j - i);
        lemma_pass_space(s, j, u, p + (j - i));
        lemma_number(s, i, u, p);
        assert(u.subrange(p, p + (j - i)) =~= s.subrange(i, j)) by {
            assert forall|k: int| 0 <= k < j - i implies u.subrange(p, p + (j - i))[k]
                == s.subrange(i, j)[k] by {
                assert(u[p + k] == s[i + k]);
            }
        }
        p + (j - i)
    }
}

/// The members of an object are read in `u` as in `s`.
proof fn lemma_members(
    s: Seq<char>,
    i: int,
    depth: int,
    acc: Seq<(Seq<char>, JsonValue)>,
    u: Seq<char>,
    p: int,
) -> (q: int)
    requires
        follows(s, i, u, p, false),
        members_at(s, i, depth, acc) is Ok,
    ensures
        members_at(u, p, depth, acc) == Ok::<(JsonValue, int), JsonFault>(
            (members_at(s, i, depth, acc)->Ok_0.0, q),
        ),
        follows(s, members_at(s, i, depth, acc)->Ok_0.1, u, q, false),
        p <= q,
    decreases s.len() - i, 1int,
{
    let j = skip_space(s, i);
    lemma_pass_space(s, i, u, p);
    lemma_step(s, j, u, p);
    lemma_string_rest(s, j + 1, Seq::empty());
    lemma_string(s, j + 1, Seq::empty(), u, p + 1);
    let (key, k) = string_at(s, j)->Ok_0;
    let pk = p + (k - j);
    lemma_pass_space(s, k, u, pk);
    let colon = skip_space(s, k);
    lemma_step(s, colon, u, pk);
    lemma_pass_space(s, colon + 1, u, pk + 1);
    let from = skip_space(s, colon + 1);
    lemma_value_bounds(s, from, depth + 1);
    let (value, end) = value_at(s, from, depth + 1)->Ok_0;
    let q = lemma_value(s, from, depth + 1, u, pk + 1);
    lemma_pass_space(s, end, u, q);
    let next = skip_space(s, end);
    lemma_step(s, next, u, q);
    if s[next] == ',' {
        lemma_members(s, next + 1, depth, acc.push((key, value)), u, q + 1)
    } else {
        q + 1
    }
}

/// The items of an array are read in `u` as in `s`.
proof fn lemma_items(
    s: Seq<char>,
    i: int,
    depth: int,
    acc: Seq<JsonValue>,
    u: Seq<char>,
    p: int,
) -> (q: int)
    requires
        follows(s, i, u, p, false),
        items_at(s, i, depth, acc) is Ok,
    ensures
        items_at(u, p, depth, acc) == Ok::<(JsonValue, int), JsonFault>(
            (items_at(s, i, depth, acc)->Ok_0.0, q),
        ),
        follows(s, items_at(s, i, depth, acc)->Ok_0.1, u, q, false),
        p <= q,
    decreases s.len() - i, 1int,
{
    lemma_pass_space(s, i, u, p);
    let from = skip_space(s, i);
    lemma_value_bounds(s, from, depth + 1);
    let (value, end) = value_at(s, from, depth + 1)->Ok_0;
    let q = lemma_value(s, from, depth + 1, u, p);
    lemma_pass_space(s, end, u, q);
    let next = skip_space(s, end);
    lemma_step(s, next, u, q);
    if s[next] == ',' {
        lemma_items(s, next + 1, depth, acc.push(value), u, q + 1)
    } else {
        q + 1
    }
}

/// Law: taking out the white space between the tokens of a document leaves its
/// value as it was.
pub proof fn law_stripped_document_is_the_same(s: Seq<char>)
    requires
        document(s) is Ok,
    ensures
        document(stripped(s, 0, false)) == document(s),
{
    let u = stripped(s, 0, false);
    assert(u.skip(0) =~= u);
    lemma_pass_space(s, 0, u, 0);
    let from = skip_space(s, 0);
    lemma_value_bounds(s, from, 0);
    let (value, end) = value_at(s, from, 0)->Ok_0;
    let q = lemma_value(s, from, 0, u, 0);
    lemma_pass_space(s, end, u, q);
}

/// Law: documents that differ only in white space between their tokens hold the
/// same value.
pub proof fn law_respaced_documents_are_the_same(s: Seq<char>, t: Seq<char>)
    requires
        document(s) is Ok,
        document(t) is Ok,
        stripped(s, 0, false) == stripped(t, 0, false),
    ensures
        document(s) == document(t),
{
    law_stripped_document_is_the_same(s);
    law_stripped_document_is_the_same(t);
}

} // verus!
