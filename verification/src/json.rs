//! A strict reader of JSON documents.
//!
//! It takes the full value grammar, keeps numbers as their source text, limits
//! nesting and refuses trailing data.

use crate::text::{
    chars_of, hex_digit, hex_digit_value, parse_unsigned, read_unsigned, same_text, text_of,
};
use vstd::prelude::*;
use vstd::utf8::{encode_scalar, encode_utf8, is_scalar};

verus! {

/// Deepest accepted nesting.
pub const MAX_DEPTH: usize = 64;

/// `char::from_u32` gives the character of a Unicode scalar value, and nothing
/// for any other number.
pub assume_specification[ char::from_u32 ](value: u32) -> (r: Option<char>)
    ensures
        r == (if is_scalar(value) {
            Some(value as char)
        } else {
            None
        }),
;

/// A JSON value, as mathematical data.
#[verifier::ext_equal]
pub enum JsonValue {
    Null,
    Bool(bool),
    Number(Seq<char>),
    Text(Seq<char>),
    Array(Seq<JsonValue>),
    Object(Seq<(Seq<char>, JsonValue)>),
}

/// A parsed JSON value.
#[derive(Debug, PartialEq)]
pub enum Json {
    Null,
    Bool(bool),
    /// A number, as its source text.
    Number(String),
    String(String),
    Array(Vec<Json>),
    Object(Vec<(String, Json)>),
}

impl Json {
    /// The value, as mathematical data.
    pub open spec fn view(&self) -> JsonValue
        decreases self,
    {
        match *self {
            Json::Null => JsonValue::Null,
            Json::Bool(b) => JsonValue::Bool(b),
            Json::Number(text) => JsonValue::Number(text@),
            Json::String(text) => JsonValue::Text(text@),
            Json::Array(items) => JsonValue::Array(
                Seq::new(
                    items@.len(),
                    |i: int|
                        if 0 <= i < items@.len() {
                            items@[i].view()
                        } else {
                            JsonValue::Null
                        },
                ),
            ),
            Json::Object(members) => JsonValue::Object(
                Seq::new(
                    members@.len(),
                    |i: int|
                        if 0 <= i < members@.len() {
                            (members@[i].0@, members@[i].1.view())
                        } else {
                            (Seq::empty(), JsonValue::Null)
                        },
                ),
            ),
        }
    }
}

/// Items as mathematical data.
pub open spec fn item_values(items: Seq<Json>) -> Seq<JsonValue> {
    Seq::new(items.len(), |i: int| items[i].view())
}

/// Members as mathematical data.
pub open spec fn member_values(members: Seq<(String, Json)>) -> Seq<(Seq<char>, JsonValue)> {
    Seq::new(members.len(), |i: int| (members[i].0@, members[i].1.view()))
}

/// The view of an array.
pub proof fn lemma_array_view(items: Vec<Json>)
    ensures
        Json::Array(items).view() == JsonValue::Array(item_values(items@)),
{
    let value = Json::Array(items);
    assert(value.view()->Array_0 =~= item_values(items@));
}

/// The view of an object.
pub proof fn lemma_object_view(members: Vec<(String, Json)>)
    ensures
        Json::Object(members).view() == JsonValue::Object(member_values(members@)),
{
    let value = Json::Object(members);
    assert(value.view()->Object_0 =~= member_values(members@));
}

/// Where and why a document is refused: at the character `index`, counting it
/// in where `consumed`.
pub struct JsonFault {
    pub index: int,
    pub consumed: bool,
    pub message: Seq<char>,
}

/// A fault in front of a character.
pub open spec fn fault_at<T>(index: int, message: Seq<char>) -> Result<T, JsonFault> {
    Err(JsonFault { index, consumed: false, message })
}

/// A fault at a character that was taken, if there was one.
pub open spec fn fault_past<T>(s: Seq<char>, index: int, message: Seq<char>) -> Result<
    T,
    JsonFault,
> {
    Err(JsonFault { index, consumed: index < s.len(), message })
}

/// White space between tokens.
pub open spec fn is_space(c: char) -> bool {
    c == ' ' || c == '\t' || c == '\n' || c == '\r'
}

/// The first index at or after `i` that holds no white space.
pub open spec fn skip_space(s: Seq<char>, i: int) -> int
    decreases s.len() - i,
{
    if 0 <= i < s.len() && is_space(s[i]) {
        skip_space(s, i + 1)
    } else {
        i
    }
}

/// `count` hexadecimal digits at `i`, behind the value `acc`.
pub open spec fn hex_at(s: Seq<char>, i: int, count: nat, acc: int) -> Result<
    (int, int),
    JsonFault,
>
    decreases count,
{
    if count == 0 {
        Ok((acc, i))
    } else if i >= s.len() {
        fault_at(i, "truncated \\u escape"@)
    } else {
        match hex_digit(s[i]) {
            Some(d) => hex_at(s, i + 1, (count - 1) as nat, acc * 16 + d),
            None => fault_past(s, i, "invalid hex digit in \\u escape"@),
        }
    }
}

/// The character of a `\u` escape whose digits start at `i`.
pub open spec fn unicode_at(s: Seq<char>, i: int) -> Result<(char, int), JsonFault> {
    match hex_at(s, i, 4, 0) {
        Err(e) => Err(e),
        Ok((high, j)) => if 0xD800 <= high <= 0xDBFF {
            if !(j < s.len() && s[j] == '\\') {
                fault_past(s, j, "unpaired high surrogate"@)
            } else if !(j + 1 < s.len() && s[j + 1] == 'u') {
                fault_past(s, j + 1, "unpaired high surrogate"@)
            } else {
                match hex_at(s, j + 2, 4, 0) {
                    Err(e) => Err(e),
                    Ok((low, k)) => if 0xDC00 <= low <= 0xDFFF {
                        Ok(((0x10000 + (high - 0xD800) * 1024 + (low - 0xDC00)) as char, k))
                    } else {
                        fault_at(k, "invalid low surrogate"@)
                    },
                }
            }
        } else if 0xDC00 <= high <= 0xDFFF {
            fault_at(j, "unpaired low surrogate"@)
        } else {
            Ok((high as char, j))
        },
    }
}

/// The character that a one-letter escape stands for.
pub open spec fn simple_escape(c: char) -> Option<char> {
    if c == '"' {
        Some('"')
    } else if c == '\\' {
        Some('\\')
    } else if c == '/' {
        Some('/')
    } else if c == 'b' {
        Some(8 as char)
    } else if c == 'f' {
        Some(12 as char)
    } else if c == 'n' {
        Some('\n')
    } else if c == 'r' {
        Some('\r')
    } else if c == 't' {
        Some('\t')
    } else {
        None
    }
}

/// The rest of a string from `i` on, behind the characters `acc`.
pub open spec fn string_rest(s: Seq<char>, i: int, acc: Seq<char>) -> Result<
    (Seq<char>, int),
    JsonFault,
>
    decreases s.len() - i,
        when 0 <= i
{
    if i >= s.len() {
        fault_at(i, "unterminated string"@)
    } else if s[i] == '"' {
        Ok((acc, i + 1))
    } else if s[i] == '\\' {
        if i + 1 >= s.len() {
            fault_at(i + 1, "unterminated escape"@)
        } else if s[i + 1] == 'u' {
            match unicode_at(s, i + 2) {
                Err(e) => Err(e),
                Ok((c, j)) => {
                    proof {
                        lemma_unicode_at(s, i + 2);
                    }
                    string_rest(s, j, acc.push(c))
                },
            }
        } else {
            match simple_escape(s[i + 1]) {
                Some(c) => string_rest(s, i + 2, acc.push(c)),
                None => fault_past(s, i + 1, "invalid escape sequence"@),
            }
        }
    } else if ' ' > s[i] {
        fault_past(s, i, "unescaped control character in string"@)
    } else {
        string_rest(s, i + 1, acc.push(s[i]))
    }
}

/// Where a run of hexadecimal digits can end.
pub proof fn lemma_hex_at(s: Seq<char>, i: int, count: nat, acc: int)
    requires
        0 <= i,
        0 <= acc,
    ensures
        hex_at(s, i, count, acc) matches Ok((v, j)) ==> j == i + count && j <= s.len() || count == 0
            && j == i,
        hex_at(s, i, count, acc) matches Ok((v, j)) ==> 0 <= v,
        hex_at(s, i, count, acc) matches Err(f) ==> i <= f.index <= s.len() || f.index == i,
        hex_at(s, i, count, acc) matches Err(f) ==> (f.consumed ==> f.index < s.len()),
    decreases count,
{
    if count > 0 && i < s.len() {
        if let Some(d) = hex_digit(s[i]) {
            lemma_hex_at(s, i + 1, (count - 1) as nat, acc * 16 + d);
        }
    }
}

/// Where an escape can end.
pub proof fn lemma_unicode_at(s: Seq<char>, i: int)
    requires
        0 <= i,
    ensures
        unicode_at(s, i) matches Ok((c, j)) ==> i < j <= s.len(),
        unicode_at(s, i) matches Err(f) ==> i <= f.index <= s.len() || f.index == i,
        unicode_at(s, i) matches Err(f) ==> (f.consumed ==> f.index < s.len()),
{
    lemma_hex_at(s, i, 4, 0);
    if let Ok((high, j)) = hex_at(s, i, 4, 0) {
        lemma_hex_at(s, j + 2, 4, 0);
    }
}

/// A string that starts at `i`.
pub open spec fn string_at(s: Seq<char>, i: int) -> Result<(Seq<char>, int), JsonFault> {
    if i < s.len() && s[i] == '"' {
        string_rest(s, i + 1, Seq::empty())
    } else {
        fault_past(s, i, "expected string"@)
    }
}

/// A decimal digit stands at `i`.
pub open spec fn digit_at(s: Seq<char>, i: int) -> bool {
    0 <= i < s.len() && '0' <= s[i] <= '9'
}

/// The first index at or after `i` that holds no digit.
pub open spec fn digits_end(s: Seq<char>, i: int) -> int
    decreases s.len() - i,
{
    if digit_at(s, i) {
        digits_end(s, i + 1)
    } else {
        i
    }
}

/// The end of the integer part of a number at `i`.
pub open spec fn integer_end(s: Seq<char>, i: int) -> Result<int, JsonFault> {
    let j = if i < s.len() && s[i] == '-' {
        i + 1
    } else {
        i
    };
    if !digit_at(s, j) {
        fault_at(j, "invalid number"@)
    } else if s[j] == '0' {
        Ok(j + 1)
    } else {
        Ok(digits_end(s, j))
    }
}

/// The end of a fraction at `i`, if there is one.
pub open spec fn fraction_end(s: Seq<char>, i: int) -> Result<int, JsonFault> {
    if i < s.len() && s[i] == '.' {
        if digit_at(s, i + 1) {
            Ok(digits_end(s, i + 1))
        } else {
            fault_at(i + 1, "invalid fraction"@)
        }
    } else {
        Ok(i)
    }
}

/// The end of an exponent at `i`, if there is one.
pub open spec fn exponent_end(s: Seq<char>, i: int) -> Result<int, JsonFault> {
    if i < s.len() && (s[i] == 'e' || s[i] == 'E') {
        let j = if i + 1 < s.len() && (s[i + 1] == '+' || s[i + 1] == '-') {
            i + 2
        } else {
            i + 1
        };
        if digit_at(s, j) {
            Ok(digits_end(s, j))
        } else {
            fault_at(j, "invalid exponent"@)
        }
    } else {
        Ok(i)
    }
}

/// The end of the number at `i`.
pub open spec fn number_end(s: Seq<char>, i: int) -> Result<int, JsonFault> {
    match integer_end(s, i) {
        Err(e) => Err(e),
        Ok(j) => match fraction_end(s, j) {
            Err(e) => Err(e),
            Ok(k) => exponent_end(s, k),
        },
    }
}

/// `word` stands at `i`.
pub open spec fn word_at(s: Seq<char>, i: int, word: Seq<char>) -> bool {
    i + word.len() <= s.len() && s.subrange(i, i + word.len()) == word
}

/// A fixed word at `i`.
pub open spec fn literal_at(s: Seq<char>, i: int, word: Seq<char>, value: JsonValue) -> Result<
    (JsonValue, int),
    JsonFault,
> {
    if word_at(s, i, word) {
        Ok((value, i + word.len()))
    } else {
        fault_at(i, "invalid literal"@)
    }
}

/// The value that starts at `i`, inside `depth` others.
pub open spec fn value_at(s: Seq<char>, i: int, depth: int) -> Result<(JsonValue, int), JsonFault>
    decreases s.len() - i, 0int,
        when 0 <= i
{
    if depth > MAX_DEPTH {
        fault_at(i, "maximum nesting depth exceeded"@)
    } else if i >= s.len() {
        fault_at(i, "unexpected end of input"@)
    } else if s[i] == '{' {
        let j = skip_space(s, i + 1);
        if j < s.len() && s[j] == '}' {
            Ok((JsonValue::Object(Seq::empty()), j + 1))
        } else {
            members_at(s, i + 1, depth, Seq::empty())
        }
    } else if s[i] == '[' {
        let j = skip_space(s, i + 1);
        if j < s.len() && s[j] == ']' {
            Ok((JsonValue::Array(Seq::empty()), j + 1))
        } else {
            items_at(s, i + 1, depth, Seq::empty())
        }
    } else if s[i] == '"' {
        match string_at(s, i) {
            Ok((text, j)) => Ok((JsonValue::Text(text), j)),
            Err(e) => Err(e),
        }
    } else if s[i] == 't' {
        literal_at(s, i, "true"@, JsonValue::Bool(true))
    } else if s[i] == 'f' {
        literal_at(s, i, "false"@, JsonValue::Bool(false))
    } else if s[i] == 'n' {
        literal_at(s, i, "null"@, JsonValue::Null)
    } else if s[i] == '-' || '0' <= s[i] <= '9' {
        match number_end(s, i) {
            Ok(j) => Ok((JsonValue::Number(s.subrange(i, j)), j)),
            Err(e) => Err(e),
        }
    } else {
        fault_at(i, "unexpected character"@)
    }
}

/// The members of an object from `i` on, behind those of `acc`, and the end of
/// the object. (That a value never ends in front of where it starts makes
/// this well-founded.)
pub open spec fn members_at(
    s: Seq<char>,
    i: int,
    depth: int,
    acc: Seq<(Seq<char>, JsonValue)>,
) -> Result<(JsonValue, int), JsonFault>
    decreases s.len() - i, 1int,
        when 0 <= i
{
    let j = skip_space(s, i);
    if !(j < s.len() && s[j] == '"') {
        fault_at(j, "object key must be a string"@)
    } else {
        match string_at(s, j) {
            Err(e) => Err(e),
            Ok((key, k)) => {
                let colon = skip_space(s, k);
                if !(colon < s.len() && s[colon] == ':') {
                    fault_past(s, colon, "expected ':' after object key"@)
                } else {
                    proof {
                        lemma_skip_space(s, i);
                        lemma_string_rest(s, j + 1, Seq::empty());
                        lemma_skip_space(s, k);
                        lemma_skip_space(s, colon + 1);
                    }
                    match value_at(s, skip_space(s, colon + 1), depth + 1) {
                        Err(e) => Err(e),
                        Ok((value, end)) => {
                            let next = skip_space(s, end);
                            if i <= next < s.len() && s[next] == ',' {
                                members_at(s, next + 1, depth, acc.push((key, value)))
                            } else if next < s.len() && s[next] == '}' {
                                Ok((JsonValue::Object(acc.push((key, value))), next + 1))
                            } else {
                                fault_past(s, next, "expected ',' or '}' in object"@)
                            }
                        },
                    }
                }
            },
        }
    }
}

/// The items of an array from `i` on, behind those of `acc`, and the end of the
/// array.
pub open spec fn items_at(s: Seq<char>, i: int, depth: int, acc: Seq<JsonValue>) -> Result<
    (JsonValue, int),
    JsonFault,
>
    decreases s.len() - i, 1int,
        when 0 <= i
{
    proof {
        lemma_skip_space(s, i);
    }
    match value_at(s, skip_space(s, i), depth + 1) {
        Err(e) => Err(e),
        Ok((value, end)) => {
            let next = skip_space(s, end);
            if i <= next < s.len() && s[next] == ',' {
                items_at(s, next + 1, depth, acc.push(value))
            } else if next < s.len() && s[next] == ']' {
                Ok((JsonValue::Array(acc.push(value)), next + 1))
            } else {
                fault_past(s, next, "expected ',' or ']' in array"@)
            }
        },
    }
}

/// White space is skipped forward, to the end or to another character.
pub proof fn lemma_skip_space(s: Seq<char>, i: int)
    ensures
        i <= skip_space(s, i),
        i <= s.len() ==> skip_space(s, i) <= s.len(),
        0 <= i && skip_space(s, i) < s.len() ==> !is_space(s[skip_space(s, i)]),
    decreases s.len() - i,
{
    if 0 <= i < s.len() && is_space(s[i]) {
        lemma_skip_space(s, i + 1);
    }
}

/// Where a string can end.
pub proof fn lemma_string_rest(s: Seq<char>, i: int, acc: Seq<char>)
    requires
        0 <= i,
    ensures
        string_rest(s, i, acc) matches Ok((text, j)) ==> i < j <= s.len(),
        string_rest(s, i, acc) matches Err(f) ==> i <= f.index && (f.consumed ==> f.index < s.len()),
        i <= s.len() ==> (string_rest(s, i, acc) matches Err(f) ==> f.index <= s.len()),
    decreases s.len() - i,
{
    if i < s.len() && s[i] != '"' {
        if s[i] == '\\' {
            if i + 1 < s.len() {
                if s[i + 1] == 'u' {
                    lemma_unicode_at(s, i + 2);
                    if let Ok((c, j)) = unicode_at(s, i + 2) {
                        lemma_string_rest(s, j, acc.push(c));
                    }
                } else if let Some(c) = simple_escape(s[i + 1]) {
                    lemma_string_rest(s, i + 2, acc.push(c));
                }
            }
        } else if s[i] >= ' ' {
            lemma_string_rest(s, i + 1, acc.push(s[i]));
        }
    }
}

/// Digits are skipped forward.
pub proof fn lemma_digits_end(s: Seq<char>, i: int)
    ensures
        i <= digits_end(s, i),
        i <= s.len() ==> digits_end(s, i) <= s.len(),
    decreases s.len() - i,
{
    if digit_at(s, i) {
        lemma_digits_end(s, i + 1);
    }
}

/// The document that a text holds.
pub open spec fn document(s: Seq<char>) -> Result<JsonValue, JsonFault> {
    match value_at(s, skip_space(s, 0), 0) {
        Err(e) => Err(e),
        Ok((value, end)) => {
            let rest = skip_space(s, end);
            if rest == s.len() {
                Ok(value)
            } else {
                fault_at(rest, "trailing data after JSON value"@)
            }
        },
    }
}

/// The position of a fault in the bytes of the text.
pub open spec fn fault_position(s: Seq<char>, fault: JsonFault) -> int {
    encode_utf8(s.take(fault.index)).len() + if fault.consumed {
        1int
    } else {
        0
    }
}

/// A refused document: where, in bytes, and why.
#[derive(Debug, Clone, PartialEq, Eq)]
pub struct JsonError {
    pub position: usize,
    pub message: &'static str,
}

/// The text of a refusal.
pub open spec fn json_error_text(position: int, message: Seq<char>) -> Seq<char> {
    "invalid JSON at byte "@ + crate::text::dec_text(position as nat) + ": "@ + message
}

impl JsonError {
    /// The error as a text.
    pub fn to_string(&self) -> (r: String)
        ensures
            r@ == json_error_text(self.position as int, self.message@),
    {
        let mut out = String::new();
        out.push_str("invalid JSON at byte ");
        crate::text::push_decimal(&mut out, self.position as u128);
        out.push_str(": ");
        out.push_str(self.message);
        proof {
            assert(out@ =~= json_error_text(self.position as int, self.message@));
        }
        out
    }
}

/// A fault while parsing, by index into the characters.
struct Fault {
    index: usize,
    consumed: bool,
    message: &'static str,
}

impl Fault {
    spec fn view(&self) -> JsonFault {
        JsonFault { index: self.index as int, consumed: self.consumed, message: self.message@ }
    }
}

/// The outcome of a parsing function and that of the grammar agree.
spec fn agrees<T, V>(r: Result<(T, usize), Fault>, expected: Result<(V, int), JsonFault>, view:
    spec_fn(T) -> V) -> bool {
    match r {
        Ok((value, end)) => expected == Ok::<(V, int), JsonFault>((view(value), end as int)),
        Err(fault) => expected == Err::<(V, int), JsonFault>(fault@),
    }
}

fn skip_whitespace(chars: &[char], from: usize) -> (r: usize)
    requires
        from <= chars@.len(),
    ensures
        r == skip_space(chars@, from as int),
        from <= r <= chars@.len(),
{
    let mut i: usize = from;
    while i < chars.len() && (chars[i] == ' ' || chars[i] == '\t' || chars[i] == '\n' || chars[i]
        == '\r')
        invariant
            from <= i <= chars@.len(),
            skip_space(chars@, i as int) == skip_space(chars@, from as int),
        decreases chars@.len() - i,
    {
        i = i + 1;
    }
    i
}

fn parse_hex4(chars: &[char], from: usize) -> (r: Result<(u32, usize), Fault>)
    requires
        from <= chars@.len(),
    ensures
        agrees(r, hex_at(chars@, from as int, 4, 0), |v: u32| v as int),
        r matches Ok((v, end)) ==> v <= 0xffff && from < end <= chars@.len(),
{
    let len: usize = chars.len();
    let mut value: u32 = 0;
    let mut n: usize = 0;
    while n < 4
        invariant
            n <= 4,
            from + n <= len == chars@.len(),
            n == 0 ==> value == 0,
            n == 1 ==> value <= 0xf,
            n == 2 ==> value <= 0xff,
            n == 3 ==> value <= 0xfff,
            n == 4 ==> value <= 0xffff,
            hex_at(chars@, from + n, (4 - n) as nat, value as int) == hex_at(
                chars@,
                from as int,
                4,
                0,
            ),
        decreases 4 - n,
    {
        if from + n >= len {
            return Err(
                Fault { index: from + n, consumed: false, message: "truncated \\u escape" },
            );
        }
        match hex_digit_value(chars[from + n]) {
            Some(digit) => {
                value = value * 16 + digit;
            },
            None => {
                return Err(
                    Fault {
                        index: from + n,
                        consumed: true,
                        message: "invalid hex digit in \\u escape",
                    },
                );
            },
        }
        n = n + 1;
    }
    Ok((value, from + 4))
}

fn parse_unicode_escape(chars: &[char], from: usize) -> (r: Result<(char, usize), Fault>)
    requires
        from <= chars@.len(),
    ensures
        agrees(r, unicode_at(chars@, from as int), |c: char| c),
        r matches Ok((c, end)) ==> from < end <= chars@.len(),
{
    let (high, j) = match parse_hex4(chars, from) {
        Ok(found) => found,
        Err(fault) => {
            return Err(fault);
        },
    };
    let len: usize = chars.len();
    if 0xD800 <= high && high <= 0xDBFF {
        if j >= len || chars[j] != '\\' {
            return Err(
                Fault { index: j, consumed: j < len, message: "unpaired high surrogate" },
            );
        }
        if j + 1 >= len || chars[j + 1] != 'u' {
            return Err(
                Fault { index: j + 1, consumed: j + 1 < len, message: "unpaired high surrogate" },
            );
        }
        let (low, k) = match parse_hex4(chars, j + 2) {
            Ok(found) => found,
            Err(fault) => {
                return Err(fault);
            },
        };
        if low < 0xDC00 || low > 0xDFFF {
            return Err(Fault { index: k, consumed: false, message: "invalid low surrogate" });
        }
        let combined: u32 = 0x10000 + (high - 0xD800) * 1024 + (low - 0xDC00);
        return match char::from_u32(combined) {
            Some(c) => Ok((c, k)),
            None => Err(Fault { index: k, consumed: false, message: "invalid surrogate pair" }),
        };
    }
    if 0xDC00 <= high && high <= 0xDFFF {
        return Err(Fault { index: j, consumed: false, message: "unpaired low surrogate" });
    }
    match char::from_u32(high) {
        Some(c) => Ok((c, j)),
        None => Err(Fault { index: j, consumed: false, message: "invalid unicode escape" }),
    }
}

fn escape_char(c: char) -> (r: Option<char>)
    ensures
        r == simple_escape(c),
{
    if c == '"' {
        Some('"')
    } else if c == '\\' {
        Some('\\')
    } else if c == '/' {
        Some('/')
    } else if c == 'b' {
        Some(8u8 as char)
    } else if c == 'f' {
        Some(12u8 as char)
    } else if c == 'n' {
        Some('\n')
    } else if c == 'r' {
        Some('\r')
    } else if c == 't' {
        Some('\t')
    } else {
        None
    }
}

fn parse_string(chars: &[char], from: usize) -> (r: Result<(String, usize), Fault>)
    requires
        from <= chars@.len(),
    ensures
        agrees(r, string_at(chars@, from as int), |t: String| t@),
        r matches Ok((t, end)) ==> from < end <= chars@.len(),
{
    let len: usize = chars.len();
    if from >= len || chars[from] != '"' {
        return Err(Fault { index: from, consumed: from < len, message: "expected string" });
    }
    let mut out = String::new();
    let mut i: usize = from + 1;
    loop
        invariant
            len == chars@.len(),
            from < i <= len,
            string_rest(chars@, i as int, out@) == string_at(chars@, from as int),
        decreases len - i,
    {
        if i >= len {
            return Err(Fault { index: i, consumed: false, message: "unterminated string" });
        }
        let c: char = chars[i];
        if c == '"' {
            return Ok((out, i + 1));
        }
        if c == '\\' {
            if i + 1 >= len {
                return Err(Fault { index: i + 1, consumed: false, message: "unterminated escape" });
            }
            let escape: char = chars[i + 1];
            if escape == 'u' {
                match parse_unicode_escape(chars, i + 2) {
                    Ok((decoded, j)) => {
                        out.push(decoded);
                        i = j;
                    },
                    Err(fault) => {
                        return Err(fault);
                    },
                }
            } else {
                match escape_char(escape) {
                    Some(decoded) => {
                        out.push(decoded);
                        i = i + 2;
                    },
                    None => {
                        return Err(
                            Fault {
                                index: i + 1,
                                consumed: true,
                                message: "invalid escape sequence",
                            },
                        );
                    },
                }
            }
        } else if ' ' > c {
            return Err(
                Fault {
                    index: i,
                    consumed: true,
                    message: "unescaped control character in string",
                },
            );
        } else {
            out.push(c);
            i = i + 1;
        }
    }
}

fn is_digit_at(chars: &[char], i: usize) -> (r: bool)
    ensures
        r == digit_at(chars@, i as int),
        r ==> i < chars@.len(),
{
    i < chars.len() && '0' <= chars[i] && chars[i] <= '9'
}

fn skip_digits(chars: &[char], from: usize) -> (r: usize)
    requires
        from <= chars@.len(),
    ensures
        r == digits_end(chars@, from as int),
        from <= r <= chars@.len(),
{
    let len: usize = chars.len();
    let mut i: usize = from;
    while is_digit_at(chars, i)
        invariant
            from <= i <= len == chars@.len(),
            digits_end(chars@, i as int) == digits_end(chars@, from as int),
        decreases chars@.len() - i,
    {
        i = i + 1;
    }
    i
}

/// The end of the number at `from`.
fn scan_number(chars: &[char], from: usize) -> (r: Result<usize, Fault>)
    requires
        from < chars@.len(),
    ensures
        match r {
            Ok(end) => number_end(chars@, from as int) == Ok::<int, JsonFault>(end as int) && from
                < end <= chars@.len(),
            Err(fault) => number_end(chars@, from as int) == Err::<int, JsonFault>(fault@),
        },
{
    let len: usize = chars.len();
    let mut i: usize = from;
    if chars[i] == '-' {
        i = i + 1;
    }
    if !is_digit_at(chars, i) {
        return Err(Fault { index: i, consumed: false, message: "invalid number" });
    }
    if chars[i] == '0' {
        i = i + 1;
    } else {
        proof {
            lemma_digits_end(chars@, i + 1);
        }
        i = skip_digits(chars, i);
    }
    if i < len && chars[i] == '.' {
        if !is_digit_at(chars, i + 1) {
            return Err(Fault { index: i + 1, consumed: false, message: "invalid fraction" });
        }
        i = skip_digits(chars, i + 1);
    }
    if i < len && (chars[i] == 'e' || chars[i] == 'E') {
        let mut j: usize = i + 1;
        if j < len && (chars[j] == '+' || chars[j] == '-') {
            j = j + 1;
        }
        if !is_digit_at(chars, j) {
            return Err(Fault { index: j, consumed: false, message: "invalid exponent" });
        }
        i = skip_digits(chars, j);
    }
    Ok(i)
}

/// Whether `word` stands at `from`.
fn is_word_at(chars: &[char], from: usize, word: &str) -> (r: bool)
    requires
        from <= chars@.len(),
    ensures
        r == word_at(chars@, from as int, word@),
{
    let letters = chars_of(word);
    let len: usize = chars.len();
    if letters.len() > len - from {
        return false;
    }
    let mut k: usize = 0;
    while k < letters.len()
        invariant
            k <= letters@.len(),
            letters@ == word@,
            from + letters@.len() <= len == chars@.len(),
            forall|q: int| 0 <= q < k ==> chars@[from + q] == letters@[q],
        decreases letters@.len() - k,
    {
        if chars[from + k] != letters[k] {
            proof {
                assert(chars@.subrange(from as int, from + word@.len())[k as int] == chars@[from
                    + k]);
            }
            return false;
        }
        k = k + 1;
    }
    proof {
        assert(chars@.subrange(from as int, from + word@.len()) =~= word@);
    }
    true
}

fn parse_literal(chars: &[char], from: usize, word: &str, value: Json) -> (r: Result<
    (Json, usize),
    Fault,
>)
    requires
        from <= chars@.len(),
    ensures
        agrees(r, literal_at(chars@, from as int, word@, value@), |v: Json| v@),
        r matches Ok((v, end)) ==> from <= end <= chars@.len(),
{
    let len: usize = chars.len();
    if is_word_at(chars, from, word) {
        let letters = chars_of(word);
        Ok((value, from + letters.len()))
    } else {
        Err(Fault { index: from, consumed: false, message: "invalid literal" })
    }
}

fn parse_value(chars: &[char], from: usize, depth: usize) -> (r: Result<(Json, usize), Fault>)
    requires
        from <= chars@.len(),
    ensures
        agrees(r, value_at(chars@, from as int, depth as int), |v: Json| v@),
        r matches Ok((v, end)) ==> from <= end <= chars@.len(),
    decreases chars@.len() - from, 0int,
{
    let len: usize = chars.len();
    if depth > MAX_DEPTH {
        return Err(
            Fault { index: from, consumed: false, message: "maximum nesting depth exceeded" },
        );
    }
    if from >= len {
        return Err(Fault { index: from, consumed: false, message: "unexpected end of input" });
    }
    let c: char = chars[from];
    if c == '{' {
        parse_object(chars, from, depth)
    } else if c == '[' {
        parse_array(chars, from, depth)
    } else if c == '"' {
        match parse_string(chars, from) {
            Ok((text, end)) => Ok((Json::String(text), end)),
            Err(fault) => Err(fault),
        }
    } else if c == 't' {
        parse_literal(chars, from, "true", Json::Bool(true))
    } else if c == 'f' {
        parse_literal(chars, from, "false", Json::Bool(false))
    } else if c == 'n' {
        parse_literal(chars, from, "null", Json::Null)
    } else if c == '-' || ('0' <= c && c <= '9') {
        match scan_number(chars, from) {
            Ok(end) => {
                let text = text_of(vstd::slice::slice_subrange(chars, from, end));
                Ok((Json::Number(text), end))
            },
            Err(fault) => Err(fault),
        }
    } else {
        Err(Fault { index: from, consumed: false, message: "unexpected character" })
    }
}

fn parse_object(chars: &[char], from: usize, depth: usize) -> (r: Result<(Json, usize), Fault>)
    requires
        from < chars@.len(),
        chars@[from as int] == '{',
        depth <= MAX_DEPTH,
    ensures
        agrees(r, value_at(chars@, from as int, depth as int), |v: Json| v@),
        r matches Ok((v, end)) ==> from <= end <= chars@.len(),
    decreases chars@.len() - from - 1, 2int,
{
    let len: usize = chars.len();
    let mut members: Vec<(String, Json)> = Vec::new();
    let first: usize = skip_whitespace(chars, from + 1);
    proof {
        assert(member_values(members@) =~= Seq::empty());
    }
    if first < len && chars[first] == '}' {
        let value = Json::Object(members);
        proof {
            lemma_object_view(members);
        }
        return Ok((value, first + 1));
    }
    let mut i: usize = from + 1;
    loop
        invariant
            len == chars@.len(),
            from < i <= len,
            depth <= MAX_DEPTH,
            members_at(chars@, i as int, depth as int, member_values(members@)) == value_at(
                chars@,
                from as int,
                depth as int,
            ),
        decreases len - i,
    {
        let key_at: usize = skip_whitespace(chars, i);
        if key_at >= len || chars[key_at] != '"' {
            return Err(
                Fault { index: key_at, consumed: false, message: "object key must be a string" },
            );
        }
        let (key, after_key) = match parse_string(chars, key_at) {
            Ok(found) => found,
            Err(fault) => {
                return Err(fault);
            },
        };
        let colon: usize = skip_whitespace(chars, after_key);
        if colon >= len || chars[colon] != ':' {
            return Err(
                Fault {
                    index: colon,
                    consumed: colon < len,
                    message: "expected ':' after object key",
                },
            );
        }
        let value_from: usize = skip_whitespace(chars, colon + 1);
        let (value, end) = match parse_value(chars, value_from, depth + 1) {
            Ok(found) => found,
            Err(fault) => {
                return Err(fault);
            },
        };
        let next: usize = skip_whitespace(chars, end);
        let ghost before = members@;
        let ghost entry = (key@, value@);
        members.push((key, value));
        proof {
            assert(member_values(members@) =~= member_values(before).push(entry));
        }
        if next < len && chars[next] == ',' {
            i = next + 1;
        } else if next < len && chars[next] == '}' {
            let object = Json::Object(members);
            proof {
                lemma_object_view(members);
            }
            return Ok((object, next + 1));
        } else {
            return Err(
                Fault {
                    index: next,
                    consumed: next < len,
                    message: "expected ',' or '}' in object",
                },
            );
        }
    }
}

fn parse_array(chars: &[char], from: usize, depth: usize) -> (r: Result<(Json, usize), Fault>)
    requires
        from < chars@.len(),
        chars@[from as int] == '[',
        depth <= MAX_DEPTH,
    ensures
        agrees(r, value_at(chars@, from as int, depth as int), |v: Json| v@),
        r matches Ok((v, end)) ==> from <= end <= chars@.len(),
    decreases chars@.len() - from - 1, 2int,
{
    let len: usize = chars.len();
    let mut items: Vec<Json> = Vec::new();
    let first: usize = skip_whitespace(chars, from + 1);
    proof {
        assert(item_values(items@) =~= Seq::empty());
    }
    if first < len && chars[first] == ']' {
        let value = Json::Array(items);
        proof {
            lemma_array_view(items);
        }
        return Ok((value, first + 1));
    }
    let mut i: usize = from + 1;
    loop
        invariant
            len == chars@.len(),
            from < i <= len,
            depth <= MAX_DEPTH,
            items_at(chars@, i as int, depth as int, item_values(items@)) == value_at(
                chars@,
                from as int,
                depth as int,
            ),
        decreases len - i,
    {
        let value_from: usize = skip_whitespace(chars, i);
        let (value, end) = match parse_value(chars, value_from, depth + 1) {
            Ok(found) => found,
            Err(fault) => {
                return Err(fault);
            },
        };
        let next: usize = skip_whitespace(chars, end);
        let ghost before = items@;
        let ghost entry = value@;
        items.push(value);
        proof {
            assert(item_values(items@) =~= item_values(before).push(entry));
        }
        if next < len && chars[next] == ',' {
            i = next + 1;
        } else if next < len && chars[next] == ']' {
            let array = Json::Array(items);
            proof {
                lemma_array_view(items);
            }
            return Ok((array, next + 1));
        } else {
            return Err(
                Fault {
                    index: next,
                    consumed: next < len,
                    message: "expected ',' or ']' in array",
                },
            );
        }
    }
}

/// Encoding goes piece by piece.
pub proof fn lemma_encode_concat(a: Seq<char>, b: Seq<char>)
    ensures
        encode_utf8(a + b) == encode_utf8(a) + encode_utf8(b),
    decreases a.len(),
{
    if a.len() == 0 {
        assert(a + b =~= b);
        assert(encode_utf8(a) + encode_utf8(b) =~= encode_utf8(b));
    } else {
        lemma_encode_concat(a.drop_first(), b);
        assert((a + b).drop_first() =~= a.drop_first() + b);
        assert(encode_utf8(a) + encode_utf8(b) =~= encode_scalar(a[0] as u32) + (encode_utf8(
            a.drop_first(),
        ) + encode_utf8(b)));
    }
}

/// Bytes of a character in the text's encoding.
fn char_width(c: char) -> (r: usize)
    ensures
        r == encode_scalar(c as u32).len(),
        1 <= r <= 4,
{
    proof {
        vstd::utf8::char_is_scalar(c);
    }
    let code: u32 = c as u32;
    if code <= 0x7F {
        1
    } else if code <= 0x7FF {
        2
    } else if code <= 0xFFFF {
        3
    } else {
        4
    }
}

/// Bytes in front of the character `index`.
fn byte_position(text: &str, chars: &[char], index: usize) -> (r: usize)
    requires
        chars@ == text@,
        index <= chars@.len(),
    ensures
        r == encode_utf8(text@.take(index as int)).len(),
        r <= encode_utf8(text@).len(),
        index < chars@.len() ==> r < encode_utf8(text@).len(),
{
    let total: usize = text.as_bytes().len();
    let mut i: usize = 0;
    let mut position: usize = 0;
    proof {
        assert(text@.take(0) =~= Seq::empty());
    }
    while i < index
        invariant
            i <= index <= chars@.len(),
            chars@ == text@,
            total == encode_utf8(text@).len(),
            position == encode_utf8(text@.take(i as int)).len(),
        decreases index - i,
    {
        proof {
            lemma_prefix_bytes(text@, i as int);
        }
        position = position + char_width(chars[i]);
        i = i + 1;
    }
    proof {
        if index < chars@.len() {
            lemma_prefix_bytes(text@, index as int);
        } else {
            assert(text@.take(index as int) =~= text@);
        }
    }
    position
}

/// One more character adds its own bytes.
proof fn lemma_prefix_bytes(s: Seq<char>, i: int)
    requires
        0 <= i < s.len(),
    ensures
        encode_utf8(s.take(i + 1)).len() == encode_utf8(s.take(i)).len() + encode_scalar(
            s[i] as u32,
        ).len(),
        encode_utf8(s.take(i)).len() + encode_scalar(s[i] as u32).len() <= encode_utf8(s).len(),
        encode_scalar(s[i] as u32).len() >= 1,
{
    vstd::utf8::char_is_scalar(s[i]);
    let one = seq![s[i]];
    assert(s.take(i + 1) =~= s.take(i) + one);
    lemma_encode_concat(s.take(i), one);
    assert(one.drop_first() =~= Seq::empty());
    assert(encode_utf8(one.drop_first()) =~= Seq::empty());
    assert(encode_utf8(one) =~= encode_scalar(s[i] as u32));
    assert(s =~= s.take(i + 1) + s.skip(i + 1));
    lemma_encode_concat(s.take(i + 1), s.skip(i + 1));
}

/// Faults lie inside the text.
proof fn lemma_number_fault(s: Seq<char>, i: int)
    requires
        0 <= i < s.len(),
    ensures
        number_end(s, i) matches Err(f) ==> i <= f.index <= s.len() && !f.consumed,
        number_end(s, i) matches Ok(j) ==> i < j <= s.len(),
{
    let j = if s[i] == '-' {
        i + 1
    } else {
        i
    };
    lemma_digits_end(s, j + 1);
    if let Ok(k) = integer_end(s, i) {
        lemma_digits_end(s, k + 1);
        lemma_digits_end(s, k + 2);
        if let Ok(m) = fraction_end(s, k) {
            lemma_digits_end(s, m + 1);
            lemma_digits_end(s, m + 2);
            lemma_digits_end(s, m + 3);
        }
    }
}

/// Index of the first member with the given name.
pub open spec fn member_index(members: Seq<(Seq<char>, JsonValue)>, key: Seq<char>) -> Option<int>
    decreases members.len(),
{
    if members.len() == 0 {
        None
    } else if members[0].0 == key {
        Some(0)
    } else {
        match member_index(members.drop_first(), key) {
            Some(i) => Some(i + 1),
            None => None,
        }
    }
}

/// The first member with the given name.
pub open spec fn lookup(value: JsonValue, key: Seq<char>) -> Option<JsonValue> {
    match value {
        JsonValue::Object(members) => match member_index(members, key) {
            Some(i) => Some(members[i].1),
            None => None,
        },
        _ => None,
    }
}

/// An index in front of which the name does not occur.
pub proof fn lemma_member_index(members: Seq<(Seq<char>, JsonValue)>, key: Seq<char>, at: int)
    requires
        0 <= at <= members.len(),
        forall|i: int| 0 <= i < at ==> (#[trigger] members[i]).0 != key,
    ensures
        at < members.len() && members[at].0 == key ==> member_index(members, key) == Some(at),
        at == members.len() ==> member_index(members, key) is None,
    decreases members.len(),
{
    if at > 0 {
        let rest = members.drop_first();
        assert forall|i: int| 0 <= i < at - 1 implies (#[trigger] rest[i]).0 != key by {
            assert(rest[i] == members[i + 1]);
        }
        assert(members[0].0 != key);
        lemma_member_index(rest, key, at - 1);
    }
}

/// The number that a value holds, if it is an unsigned integer up to `max`.
pub open spec fn unsigned_of(value: JsonValue, max: nat) -> Option<nat> {
    match value {
        JsonValue::Number(text) => read_unsigned(text, max),
        _ => None,
    }
}

/// The text that a value holds.
pub open spec fn text_of_value(value: JsonValue) -> Option<Seq<char>> {
    match value {
        JsonValue::Text(text) => Some(text),
        _ => None,
    }
}

impl Json {
    /// Parse a complete document.
    pub fn parse(text: &str) -> (r: Result<Json, JsonError>)
        ensures
            match r {
                Ok(value) => document(text@) == Ok::<JsonValue, JsonFault>(value@),
                Err(e) => document(text@) matches Err(fault) && e.position == fault_position(
                    text@,
                    fault,
                ) && e.message@ == fault.message,
            },
    {
        let chars = chars_of(text);
        match parse_document(chars.as_slice()) {
            Ok(value) => Ok(value),
            Err(fault) => {
                let before: usize = byte_position(text, chars.as_slice(), fault.index);
                let total: usize = text.as_bytes().len();
                let position: usize = if fault.consumed {
                    before + 1
                } else {
                    before
                };
                Err(JsonError { position, message: fault.message })
            },
        }
    }

    /// The first member with the given name, if this is an object that has
    /// one.
    pub fn get(&self, key: &str) -> (r: Option<&Json>)
        ensures
            match r {
                Some(value) => lookup(self@, key@) == Some(value@),
                None => lookup(self@, key@) is None,
            },
    {
        match self {
            Json::Object(members) => {
                let ghost values = member_values(members@);
                proof {
                    lemma_object_view(*members);
                }
                let mut i: usize = 0;
                while i < members.len()
                    invariant
                        i <= members@.len(),
                        values == member_values(members@),
                        self@ == JsonValue::Object(values),
                        forall|k: int| 0 <= k < i ==> (#[trigger] values[k]).0 != key@,
                    decreases members@.len() - i,
                {
                    proof {
                        assert(values[i as int] == (members@[i as int].0@, members@[i as int].1@));
                        lemma_member_index(values, key@, i as int);
                    }
                    if same_text(members[i].0.as_str(), key) {
                        return Some(&members[i].1);
                    }
                    i = i + 1;
                }
                proof {
                    lemma_member_index(values, key@, i as int);
                }
                None
            },
            _ => None,
        }
    }

    /// The items, if this is an array.
    pub fn as_array(&self) -> (r: Option<&[Json]>)
        ensures
            match r {
                Some(items) => self@ == JsonValue::Array(item_values(items@)),
                None => !(self@ is Array),
            },
    {
        match self {
            Json::Array(items) => {
                proof {
                    lemma_array_view(*items);
                }
                Some(items.as_slice())
            },
            _ => None,
        }
    }

    /// The text, if this is a string.
    pub fn as_str(&self) -> (r: Option<&str>)
        ensures
            match r {
                Some(text) => text_of_value(self@) == Some(text@),
                None => text_of_value(self@) is None,
            },
    {
        match self {
            Json::String(text) => Some(text.as_str()),
            _ => None,
        }
    }

    /// The truth value, if this is one.
    pub fn as_bool(&self) -> (r: Option<bool>)
        ensures
            r == (match self@ {
                JsonValue::Bool(b) => Some(b),
                _ => None,
            }),
    {
        match self {
            Json::Bool(b) => Some(*b),
            _ => None,
        }
    }

    /// The number, if this is an unsigned integer of 128 bits.
    pub fn as_u128(&self) -> (r: Option<u128>)
        ensures
            match r {
                Some(v) => unsigned_of(self@, u128::MAX as nat) == Some(v as nat),
                None => unsigned_of(self@, u128::MAX as nat) is None,
            },
    {
        match self {
            Json::Number(text) => parse_unsigned(
                chars_of(text.as_str()).as_slice(),
                u128::MAX,
            ),
            _ => None,
        }
    }

    /// The number, if this is an unsigned integer of 64 bits.
    pub fn as_u64(&self) -> (r: Option<u64>)
        ensures
            match r {
                Some(v) => unsigned_of(self@, u64::MAX as nat) == Some(v as nat),
                None => unsigned_of(self@, u64::MAX as nat) is None,
            },
    {
        match self {
            Json::Number(text) => match parse_unsigned(
                chars_of(text.as_str()).as_slice(),
                u64::MAX as u128,
            ) {
                Some(v) => Some(v as u64),
                None => None,
            },
            _ => None,
        }
    }
}

/// Faults and ends of values lie inside the text.
pub proof fn lemma_value_bounds(s: Seq<char>, i: int, depth: int)
    requires
        0 <= i <= s.len(),
    ensures
        value_at(s, i, depth) matches Ok((v, j)) ==> i <= j <= s.len(),
        value_at(s, i, depth) matches Err(f) ==> 0 <= f.index <= s.len() && (f.consumed
            ==> f.index < s.len()),
    decreases s.len() - i, 0int,
{
    if depth <= MAX_DEPTH && i < s.len() {
        lemma_skip_space(s, i + 1);
        if s[i] == '{' {
            lemma_members_bounds(s, i + 1, depth, Seq::empty());
        } else if s[i] == '[' {
            lemma_items_bounds(s, i + 1, depth, Seq::empty());
        } else if s[i] == '"' {
            lemma_string_rest(s, i + 1, Seq::empty());
        } else if s[i] == '-' || '0' <= s[i] <= '9' {
            lemma_number_fault(s, i);
        }
    }
}

proof fn lemma_members_bounds(
    s: Seq<char>,
    i: int,
    depth: int,
    acc: Seq<(Seq<char>, JsonValue)>,
)
    requires
        0 <= i <= s.len(),
    ensures
        members_at(s, i, depth, acc) matches Ok((v, j)) ==> i <= j <= s.len(),
        members_at(s, i, depth, acc) matches Err(f) ==> 0 <= f.index <= s.len() && (f.consumed
            ==> f.index < s.len()),
    decreases s.len() - i, 1int,
{
    let j = skip_space(s, i);
    lemma_skip_space(s, i);
    if j < s.len() && s[j] == '"' {
        lemma_string_rest(s, j + 1, Seq::empty());
        if let Ok((key, k)) = string_at(s, j) {
            let colon = skip_space(s, k);
            lemma_skip_space(s, k);
            if colon < s.len() && s[colon] == ':' {
                lemma_skip_space(s, colon + 1);
                let from = skip_space(s, colon + 1);
                lemma_value_bounds(s, from, depth + 1);
                if let Ok((value, end)) = value_at(s, from, depth + 1) {
                    let next = skip_space(s, end);
                    lemma_skip_space(s, end);
                    if next < s.len() && s[next] == ',' {
                        lemma_members_bounds(s, next + 1, depth, acc.push((key, value)));
                    }
                }
            }
        }
    }
}

proof fn lemma_items_bounds(s: Seq<char>, i: int, depth: int, acc: Seq<JsonValue>)
    requires
        0 <= i <= s.len(),
    ensures
        items_at(s, i, depth, acc) matches Ok((v, j)) ==> i <= j <= s.len(),
        items_at(s, i, depth, acc) matches Err(f) ==> 0 <= f.index <= s.len() && (f.consumed
            ==> f.index < s.len()),
    decreases s.len() - i, 1int,
{
    lemma_skip_space(s, i);
    let from = skip_space(s, i);
    lemma_value_bounds(s, from, depth + 1);
    if let Ok((value, end)) = value_at(s, from, depth + 1) {
        let next = skip_space(s, end);
        lemma_skip_space(s, end);
        if next < s.len() && s[next] == ',' {
            lemma_items_bounds(s, next + 1, depth, acc.push(value));
        }
    }
}

fn parse_document(chars: &[char]) -> (r: Result<Json, Fault>)
    ensures
        match r {
            Ok(value) => document(chars@) == Ok::<JsonValue, JsonFault>(value@),
            Err(fault) => document(chars@) == Err::<JsonValue, JsonFault>(fault@) && fault.index
                <= chars@.len() && (fault.consumed ==> fault.index < chars@.len()),
        },
{
    let from: usize = skip_whitespace(chars, 0);
    proof {
        lemma_value_bounds(chars@, from as int, 0);
    }
    match parse_value(chars, from, 0) {
        Ok((value, end)) => {
            let rest: usize = skip_whitespace(chars, end);
            if rest != chars.len() {
                return Err(
                    Fault {
                        index: rest,
                        consumed: false,
                        message: "trailing data after JSON value",
                    },
                );
            }
            Ok(value)
        },
        Err(fault) => Err(fault),
    }
}

} // verus!
