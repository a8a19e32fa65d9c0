//! What every JSON document has in common, however it is spelled.

use crate::json::{
    document, fraction_end, integer_end, items_at, lemma_digits_end, lemma_skip_space,
    lemma_string_rest, lemma_value_bounds, members_at, number_end, skip_space, string_at,
    unsigned_of, value_at, JsonValue, MAX_DEPTH,
};
use crate::text::{all_digits, dec_value};
use vstd::prelude::*;

verus! {

/// Every number in the value starts with something else than a plus sign.
pub open spec fn plain_numbers(value: JsonValue) -> bool
    decreases value,
{
    match value {
        JsonValue::Number(text) => text.len() > 0 && text[0] != '+',
        JsonValue::Array(items) => forall|i: int|
            0 <= i < items.len() ==> plain_numbers(#[trigger] items[i]),
        JsonValue::Object(members) => forall|i: int|
            0 <= i < members.len() ==> plain_numbers((#[trigger] members[i]).1),
        _ => true,
    }
}

/// A number has at least one character.
proof fn lemma_number_advances(s: Seq<char>, i: int)
    requires
        0 <= i < s.len(),
    ensures
        number_end(s, i) matches Ok(j) ==> i < j,
{
    let first = if s[i] == '-' {
        i + 1
    } else {
        i
    };
    lemma_digits_end(s, first);
    if let Ok(j) = integer_end(s, i) {
        lemma_digits_end(s, j + 1);
        if let Ok(k) = fraction_end(s, j) {
            lemma_digits_end(s, k + 1);
            lemma_digits_end(s, k + 2);
        }
    }
}

proof fn lemma_value_plain(s: Seq<char>, i: int, depth: int)
    requires
        0 <= i <= s.len(),
    ensures
        value_at(s, i, depth) matches Ok((v, j)) ==> plain_numbers(v),
    decreases s.len() - i, 0int,
{
    lemma_value_bounds(s, i, depth);
    if depth <= MAX_DEPTH && i < s.len() {
        if s[i] == '{' {
            lemma_members_plain(s, i + 1, depth, Seq::empty());
        } else if s[i] == '[' {
            lemma_items_plain(s, i + 1, depth, Seq::empty());
        } else if s[i] == '-' || '0' <= s[i] <= '9' {
            lemma_number_advances(s, i);
            if let Ok(j) = number_end(s, i) {
                assert(s.subrange(i, j)[0] == s[i]);
            }
        }
    }
}

proof fn lemma_members_plain(
    s: Seq<char>,
    i: int,
    depth: int,
    acc: Seq<(Seq<char>, JsonValue)>,
)
    requires
        0 <= i <= s.len(),
        forall|k: int| 0 <= k < acc.len() ==> plain_numbers((#[trigger] acc[k]).1),
    ensures
        members_at(s, i, depth, acc) matches Ok((v, j)) ==> plain_numbers(v),
    decreases s.len() - i, 1int,
{
    let j = skip_space(s, i);
    lemma_skip_space(s, i);
    if j < s.len() && s[j] == '"' {
        lemma_string_rest(s, j + 1, Seq::empty());
        if let Ok((key, k)) = string_at(s, j) {
            lemma_skip_space(s, k);
            let colon = skip_space(s, k);
            if colon < s.len() && s[colon] == ':' {
                lemma_skip_space(s, colon + 1);
                let from = skip_space(s, colon + 1);
                lemma_value_plain(s, from, depth + 1);
                lemma_value_bounds(s, from, depth + 1);
                if let Ok((value, end)) = value_at(s, from, depth + 1) {
                    let next = skip_space(s, end);
                    lemma_skip_space(s, end);
                    if next < s.len() && s[next] == ',' {
                        lemma_members_plain(s, next + 1, depth, acc.push((key, value)));
                    }
                }
            }
        }
    }
}

proof fn lemma_items_plain(s: Seq<char>, i: int, depth: int, acc: Seq<JsonValue>)
    requires
        0 <= i <= s.len(),
        forall|k: int| 0 <= k < acc.len() ==> plain_numbers(#[trigger] acc[k]),
    ensures
        items_at(s, i, depth, acc) matches Ok((v, j)) ==> plain_numbers(v),
    decreases s.len() - i, 1int,
{
    lemma_skip_space(s, i);
    let from = skip_space(s, i);
    lemma_value_plain(s, from, depth + 1);
    lemma_value_bounds(s, from, depth + 1);
    if let Ok((value, end)) = value_at(s, from, depth + 1) {
        let next = skip_space(s, end);
        lemma_skip_space(s, end);
        if next < s.len() && s[next] == ',' {
            lemma_items_plain(s, next + 1, depth, acc.push(value));
        }
    }
}

/// Law: no number of a parsed document, at any depth, has a leading plus sign.
pub proof fn law_parsed_numbers_are_plain(text: Seq<char>)
    ensures
        document(text) matches Ok(value) ==> plain_numbers(value),
{
    lemma_skip_space(text, 0);
    lemma_value_plain(text, skip_space(text, 0), 0);
}

/// Law: a value of a parsed document reads as an unsigned number exactly when it
/// is a number of decimal digits only that is not too large. So what reads as a
/// smaller unsigned type is what reads as a larger one and fits the smaller.
pub proof fn law_parsed_unsigned_is_digits(value: JsonValue, max: nat, larger: nat)
    requires
        plain_numbers(value),
        max <= larger,
    ensures
        unsigned_of(value, max) == (match value {
            JsonValue::Number(text) => if all_digits(text) && dec_value(text) <= max {
                Some(dec_value(text))
            } else {
                None
            },
            _ => None,
        }),
        forall|n: nat|
            unsigned_of(value, max) == Some(n) <==> #[trigger] fits(
                unsigned_of(value, larger),
                n,
                max,
            ),
{
    if let JsonValue::Number(text) = value {
        assert(text[0] != '+');
    }
}

/// The number was read, and it is no larger than `max`.
pub open spec fn fits(read: Option<nat>, n: nat, max: nat) -> bool {
    read == Some(n) && n <= max
}

} // verus!
