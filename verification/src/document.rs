//! JSON documents with a fixed layout, and how they are written.
//!
//! A document says of each of its containers whether it goes on one line or
//! in an indented block, so that one document has one text.

use crate::json::{
    digit_at, digits_end, document, hex_at, is_space, items_at, members_at, number_end,
    simple_escape, skip_space, string_at, string_rest, value_at, word_at, JsonFault, JsonValue,
    MAX_DEPTH,
};
use crate::text::{
    all_digits, chars_of, dec_text, hex_char, hex_digit, hex_digit_char, is_digit,
    law_decimal_round_trip, push_decimal,
};
use vstd::prelude::*;

verus! {

/// How a container is laid out.
#[derive(Clone, Copy, Debug, PartialEq, Eq, Structural)]
pub enum Style {
    /// On one line.
    Inline,
    /// Over several lines, in a block that is indented by this many spaces.
    Block(u8),
}

/// A document and its layout, as mathematical data.
#[verifier::ext_equal]
pub enum Layout {
    Null,
    Bool(bool),
    Number(nat),
    Text(Seq<char>),
    Array(Style, Seq<Layout>),
    Object(Style, Seq<(Seq<char>, Layout)>),
}

/// `n` spaces.
pub open spec fn spaces(n: int) -> Seq<char> {
    Seq::new(n as nat, |i: int| ' ')
}

/// The white space in front of an entry.
pub open spec fn gap_before(style: Style) -> Seq<char> {
    match style {
        Style::Inline => seq![' '],
        Style::Block(indent) => seq!['\n'] + spaces(indent + 2),
    }
}

/// The white space behind the last entry.
pub open spec fn gap_after(style: Style) -> Seq<char> {
    match style {
        Style::Inline => seq![' '],
        Style::Block(indent) => seq!['\n'] + spaces(indent as int),
    }
}

/// How a character is written inside a string.
pub open spec fn escaped_char(c: char) -> Seq<char> {
    if c == '"' {
        seq!['\\', '"']
    } else if c == '\\' {
        seq!['\\', '\\']
    } else if c == '\n' {
        seq!['\\', 'n']
    } else if c == '\r' {
        seq!['\\', 'r']
    } else if c == '\t' {
        seq!['\\', 't']
    } else if ' ' > c {
        seq!['\\', 'u', '0', '0', hex_char(c as int / 16), hex_char(c as int % 16)]
    } else {
        seq![c]
    }
}

/// How a text is written inside a string.
pub open spec fn escaped(s: Seq<char>) -> Seq<char>
    decreases s.len(),
{
    if s.len() == 0 {
        Seq::empty()
    } else {
        escaped(s.drop_last()) + escaped_char(s.last())
    }
}

/// How a text is written as a string.
pub open spec fn quoted(s: Seq<char>) -> Seq<char> {
    seq!['"'] + escaped(s) + seq!['"']
}

/// How a document is written.
pub open spec fn rendered(layout: Layout) -> Seq<char>
    decreases layout,
{
    match layout {
        Layout::Null => "null"@,
        Layout::Bool(b) => if b {
            "true"@
        } else {
            "false"@
        },
        Layout::Number(n) => dec_text(n),
        Layout::Text(s) => quoted(s),
        Layout::Array(style, items) => if items.len() == 0 {
            seq!['[', ']']
        } else {
            seq!['['] + rendered_items(style, items, 0)
        },
        Layout::Object(style, members) => if members.len() == 0 {
            seq!['{', '}']
        } else {
            seq!['{'] + rendered_members(style, members, 0)
        },
    }
}

/// How the items from `k` on are written, with the end of their array.
pub open spec fn rendered_items(style: Style, items: Seq<Layout>, k: int) -> Seq<char>
    decreases items, items.len() - k,
{
    if 0 <= k < items.len() {
        gap_before(style) + rendered(items[k]) + if k + 1 < items.len() {
            seq![','] + rendered_items(style, items, k + 1)
        } else {
            gap_after(style) + seq![']']
        }
    } else {
        Seq::empty()
    }
}

/// How the members from `k` on are written, with the end of their object.
pub open spec fn rendered_members(
    style: Style,
    members: Seq<(Seq<char>, Layout)>,
    k: int,
) -> Seq<char>
    decreases members, members.len() - k,
{
    if 0 <= k < members.len() {
        gap_before(style) + quoted(members[k].0) + seq![':', ' '] + rendered(members[k].1) + if k
            + 1 < members.len() {
            seq![','] + rendered_members(style, members, k + 1)
        } else {
            gap_after(style) + seq!['}']
        }
    } else {
        Seq::empty()
    }
}

/// The value that a document holds, whatever its layout.
pub open spec fn layout_value(layout: Layout) -> JsonValue
    decreases layout,
{
    match layout {
        Layout::Null => JsonValue::Null,
        Layout::Bool(b) => JsonValue::Bool(b),
        Layout::Number(n) => JsonValue::Number(dec_text(n)),
        Layout::Text(s) => JsonValue::Text(s),
        Layout::Array(_, items) => JsonValue::Array(
            Seq::new(
                items.len(),
                |i: int|
                    if 0 <= i < items.len() {
                        layout_value(items[i])
                    } else {
                        JsonValue::Null
                    },
            ),
        ),
        Layout::Object(_, members) => JsonValue::Object(
            Seq::new(
                members.len(),
                |i: int|
                    if 0 <= i < members.len() {
                        (members[i].0, layout_value(members[i].1))
                    } else {
                        (Seq::empty(), JsonValue::Null)
                    },
            ),
        ),
    }
}

/// The values of the first `k` items.
pub open spec fn values_of_items(items: Seq<Layout>, k: int) -> Seq<JsonValue> {
    Seq::new(k as nat, |i: int| layout_value(items[i]))
}

/// The names and values of the first `k` members.
pub open spec fn values_of_members(members: Seq<(Seq<char>, Layout)>, k: int) -> Seq<
    (Seq<char>, JsonValue),
> {
    Seq::new(k as nat, |i: int| (members[i].0, layout_value(members[i].1)))
}

/// Containers are nested at most `levels` deep.
pub open spec fn nested_within(layout: Layout, levels: int) -> bool
    decreases layout,
{
    match layout {
        Layout::Array(_, items) => levels > 0 && forall|i: int|
            0 <= i < items.len() ==> nested_within(#[trigger] items[i], levels - 1),
        Layout::Object(_, members) => levels > 0 && forall|i: int|
            0 <= i < members.len() ==> nested_within((#[trigger] members[i]).1, levels - 1),
        _ => true,
    }
}

/// A word in two parts stands where both parts stand in a row.
pub proof fn lemma_word_split(s: Seq<char>, i: int, a: Seq<char>, b: Seq<char>)
    requires
        0 <= i,
    ensures
        word_at(s, i, a + b) <==> word_at(s, i, a) && word_at(s, i + a.len(), b),
{
    let whole = a + b;
    if word_at(s, i, whole) {
        assert(s.subrange(i, i + a.len()) =~= a) by {
            assert forall|k: int| 0 <= k < a.len() implies s[i + k] == a[k] by {
                assert(s.subrange(i, i + whole.len())[k] == whole[k]);
            }
        }
        assert(s.subrange(i + a.len(), i + a.len() + b.len()) =~= b) by {
            assert forall|k: int| 0 <= k < b.len() implies s[i + a.len() + k] == b[k] by {
                assert(s.subrange(i, i + whole.len())[a.len() + k] == whole[a.len() + k]);
            }
        }
    }
    if word_at(s, i, a) && word_at(s, i + a.len(), b) {
        assert(s.subrange(i, i + whole.len()) =~= whole) by {
            assert forall|k: int| 0 <= k < whole.len() implies s[i + k] == whole[k] by {
                if k < a.len() {
                    assert(s.subrange(i, i + a.len())[k] == a[k]);
                } else {
                    assert(s.subrange(i + a.len(), i + a.len() + b.len())[k - a.len()] == b[k
                        - a.len()]);
                }
            }
        }
    }
}

/// The characters of a word that stands at `i`.
pub proof fn lemma_word_chars(s: Seq<char>, i: int, word: Seq<char>)
    requires
        0 <= i,
        word_at(s, i, word),
    ensures
        forall|k: int| 0 <= k < word.len() ==> s[i + k] == #[trigger] word[k],
        i + word.len() <= s.len(),
{
    assert forall|k: int| 0 <= k < word.len() implies s[i + k] == #[trigger] word[k] by {
        assert(s.subrange(i, i + word.len())[k] == word[k]);
    }
}

/// White space in front of anything else is skipped whole.
pub proof fn lemma_skip_gap(s: Seq<char>, i: int, gap: Seq<char>)
    requires
        0 <= i,
        word_at(s, i, gap),
        forall|k: int| 0 <= k < gap.len() ==> is_space(#[trigger] gap[k]),
        i + gap.len() < s.len() ==> !is_space(s[i + gap.len()]),
    ensures
        skip_space(s, i) == i + gap.len(),
    decreases gap.len(),
{
    lemma_word_chars(s, i, gap);
    if gap.len() > 0 {
        assert(s[i + 0] == gap[0]);
        let rest = gap.drop_first();
        assert(gap =~= seq![gap[0]] + rest);
        lemma_word_split(s, i, seq![gap[0]], rest);
        assert forall|k: int| 0 <= k < rest.len() implies is_space(#[trigger] rest[k]) by {
            assert(rest[k] == gap[k + 1]);
        }
        lemma_skip_gap(s, i + 1, rest);
    }
}

/// Gaps hold white space only.
pub proof fn lemma_gaps(style: Style)
    ensures
        forall|k: int|
            0 <= k < gap_before(style).len() ==> is_space(#[trigger] gap_before(style)[k]),
        forall|k: int|
            0 <= k < gap_after(style).len() ==> is_space(#[trigger] gap_after(style)[k]),
        gap_after(style).len() > 0,
        gap_before(style).len() > 0,
{
}

/// A character is its code.
proof fn lemma_char_code(c: char)
    ensures
        0 <= c as int,
{
}

/// What a string literal's written form reads as, from its character `k` on.
proof fn lemma_escaped_parses(s: Seq<char>, start: int, t: Seq<char>, k: int)
    requires
        0 <= start,
        0 <= k <= t.len(),
        word_at(s, start, escaped(t) + seq!['"']),
    ensures
        string_rest(s, start + escaped(t.take(k)).len(), t.take(k)) == Ok::<
            (Seq<char>, int),
            JsonFault,
        >((t, start + escaped(t).len() + 1)),
    decreases t.len() - k,
{
    lemma_word_split(s, start, escaped(t), seq!['"']);
    if k == t.len() {
        assert(t.take(k) =~= t);
        lemma_word_chars(s, start + escaped(t).len(), seq!['"']);
        assert(s[start + escaped(t).len() + 0] == seq!['"'][0]);
    } else {
        lemma_escaped_parses(s, start, t, k + 1);
        let c = t[k];
        let front = t.take(k);
        let longer = t.take(k + 1);
        assert(longer.drop_last() =~= front);
        assert(longer =~= front.push(c));
        let i = start + escaped(front).len();
        assert(word_at(s, i, escaped_char(c))) by {
            lemma_escaped_prefix(t, k + 1);
            let rest = escaped(t).skip(escaped(longer).len() as int);
            assert(escaped(t) =~= escaped(longer) + rest);
            lemma_word_split(s, start, escaped(longer), rest);
            lemma_word_split(s, start, escaped(front), escaped_char(c));
        }
        lemma_word_chars(s, i, escaped_char(c));
        let w = escaped_char(c);
        if c == '"' || c == '\\' || c == '\n' || c == '\r' || c == '\t' {
            assert(s[i + 0] == w[0] && s[i + 1] == w[1]);
            assert(simple_escape(s[i + 1]) == Some(c));
        } else if ' ' > c {
            assert(s[i + 0] == w[0] && s[i + 1] == w[1] && s[i + 2] == w[2] && s[i + 3] == w[3]
                && s[i + 4] == w[4] && s[i + 5] == w[5]);
            assert(hex_digit('0') == Some(0int));
            let high = c as int / 16;
            let low = c as int % 16;
            lemma_char_code(c);
            assert(0 <= high <= 1 && 0 <= low <= 15);
            assert(hex_digit(hex_char(high)) == Some(high));
            assert(hex_digit(hex_char(low)) == Some(low));
            reveal_with_fuel(hex_at, 5);
            assert(hex_at(s, i + 2, 4, 0) == Ok::<(int, int), JsonFault>((c as int, i + 6)));
        } else {
            assert(s[i + 0] == w[0]);
        }
    }
}

/// The written form of the beginning of a text begins its written form.
proof fn lemma_escaped_prefix(t: Seq<char>, k: int)
    requires
        0 <= k <= t.len(),
    ensures
        escaped(t.take(k)).len() <= escaped(t).len(),
        escaped(t).take(escaped(t.take(k)).len() as int) == escaped(t.take(k)),
    decreases t.len() - k,
{
    if k == t.len() {
        assert(t.take(k) =~= t);
        assert(escaped(t).take(escaped(t).len() as int) =~= escaped(t));
    } else {
        lemma_escaped_prefix(t, k + 1);
        let longer = t.take(k + 1);
        assert(longer.drop_last() =~= t.take(k));
        assert(escaped(t).take(escaped(t.take(k)).len() as int) =~= escaped(longer).take(
            escaped(t.take(k)).len() as int,
        ));
        assert(escaped(longer).take(escaped(t.take(k)).len() as int) =~= escaped(t.take(k)));
    }
}

/// Law: a text that was written as a string is read back as it was, whatever
/// characters it holds and wherever the string stands.
pub proof fn law_string_round_trip(s: Seq<char>, i: int, t: Seq<char>)
    requires
        0 <= i,
        word_at(s, i, quoted(t)),
    ensures
        string_at(s, i) == Ok::<(Seq<char>, int), JsonFault>((t, i + quoted(t).len())),
        s[i] == '"',
{
    assert(quoted(t) =~= seq!['"'] + (escaped(t) + seq!['"']));
    lemma_word_split(s, i, seq!['"'], escaped(t) + seq!['"']);
    lemma_word_chars(s, i, seq!['"']);
    assert(s[i + 0] == seq!['"'][0]);
    lemma_escaped_parses(s, i + 1, t, 0);
    assert(t.take(0) =~= Seq::empty());
}

/// A run of digits ends where something else follows.
proof fn lemma_digit_run(s: Seq<char>, i: int, run: Seq<char>)
    requires
        0 <= i,
        word_at(s, i, run),
        all_digits(run),
        !digit_at(s, i + run.len()),
    ensures
        digits_end(s, i) == i + run.len(),
    decreases run.len(),
{
    lemma_word_chars(s, i, run);
    if run.len() > 0 {
        assert(s[i + 0] == run[0]);
        assert(is_digit(run[0]));
        let rest = run.drop_first();
        assert(run =~= seq![run[0]] + rest);
        lemma_word_split(s, i, seq![run[0]], rest);
        assert forall|k: int| 0 <= k < rest.len() implies is_digit(#[trigger] rest[k]) by {
            assert(rest[k] == run[k + 1]);
        }
        lemma_digit_run(s, i + 1, rest);
    }
}

/// Nothing at `i` can continue a number.
pub open spec fn ends_number(s: Seq<char>, i: int) -> bool {
    i < s.len() ==> !digit_at(s, i) && s[i] != '.' && s[i] != 'e' && s[i] != 'E'
}

proof fn lemma_number_parses(s: Seq<char>, i: int, n: nat)
    requires
        0 <= i,
        word_at(s, i, dec_text(n)),
        ends_number(s, i + dec_text(n).len()),
    ensures
        number_end(s, i) == Ok::<int, JsonFault>(i + dec_text(n).len()),
        s.subrange(i, i + dec_text(n).len()) == dec_text(n),
        digit_at(s, i),
{
    law_decimal_round_trip(n);
    let run = dec_text(n);
    lemma_word_chars(s, i, run);
    assert(s[i + 0] == run[0]);
    assert(is_digit(run[0]));
    lemma_digit_run(s, i, run);
}

/// What a document's text starts with.
proof fn lemma_first_char(s: Seq<char>, i: int, layout: Layout)
    requires
        0 <= i,
        word_at(s, i, rendered(layout)),
    ensures
        i < s.len(),
        !is_space(s[i]),
        s[i] != ']',
        s[i] != '}',
        match layout {
            Layout::Null => s[i] == 'n',
            Layout::Bool(b) => if b {
                s[i] == 't'
            } else {
                s[i] == 'f'
            },
            Layout::Number(_) => digit_at(s, i),
            Layout::Text(_) => s[i] == '"',
            Layout::Array(..) => s[i] == '[',
            Layout::Object(..) => s[i] == '{',
        },
{
    reveal_strlit("null");
    reveal_strlit("true");
    reveal_strlit("false");
    lemma_word_chars(s, i, rendered(layout));
    if let Layout::Number(n) = layout {
        law_decimal_round_trip(n);
        assert(is_digit(dec_text(n)[0]));
    }
    assert(rendered(layout).len() > 0);
    assert(s[i + 0] == rendered(layout)[0]);
}

/// Law: a document that was written is read back as the value it holds,
/// wherever it stands in a text, as long as what follows it cannot be taken
/// for a part of it.
pub proof fn law_layout_round_trip(s: Seq<char>, i: int, depth: int, layout: Layout)
    requires
        0 <= i,
        0 <= depth,
        word_at(s, i, rendered(layout)),
        nested_within(layout, MAX_DEPTH - depth),
        depth <= MAX_DEPTH,
        layout is Number ==> ends_number(s, i + rendered(layout).len()),
    ensures
        value_at(s, i, depth) == Ok::<(JsonValue, int), JsonFault>(
            (layout_value(layout), i + rendered(layout).len()),
        ),
    decreases layout, 0int, 0int,
{
    lemma_first_char(s, i, layout);
    match layout {
        Layout::Null => {},
        Layout::Bool(b) => {},
        Layout::Number(n) => {
            lemma_number_parses(s, i, n);
        },
        Layout::Text(t) => {
            law_string_round_trip(s, i, t);
        },
        Layout::Array(style, items) => {
            lemma_word_chars(s, i, rendered(layout));
            if items.len() == 0 {
                assert(s[i + 1] == seq!['[', ']'][1]);
                assert(skip_space(s, i + 1) == i + 1);
                assert(layout_value(layout)->Array_0 =~= Seq::empty());
            } else {
                lemma_word_split(s, i, seq!['['], rendered_items(style, items, 0));
                lemma_items_parse(s, i + 1, depth, style, items, 0);
                assert(values_of_items(items, 0) =~= Seq::empty());
                assert(layout_value(layout)->Array_0 =~= values_of_items(
                    items,
                    items.len() as int,
                ));
                lemma_item_start(s, i + 1, style, items, 0);
            }
        },
        Layout::Object(style, members) => {
            lemma_word_chars(s, i, rendered(layout));
            if members.len() == 0 {
                assert(s[i + 1] == seq!['{', '}'][1]);
                assert(skip_space(s, i + 1) == i + 1);
                assert(layout_value(layout)->Object_0 =~= Seq::empty());
            } else {
                lemma_word_split(s, i, seq!['{'], rendered_members(style, members, 0));
                lemma_members_parse(s, i + 1, depth, style, members, 0);
                assert(values_of_members(members, 0) =~= Seq::empty());
                assert(layout_value(layout)->Object_0 =~= values_of_members(
                    members,
                    members.len() as int,
                ));
                lemma_member_start(s, i + 1, style, members, 0);
            }
        },
    }
}

/// Where the text of item `k` starts, once white space is skipped.
proof fn lemma_item_start(s: Seq<char>, i: int, style: Style, items: Seq<Layout>, k: int)
    requires
        0 <= i,
        0 <= k < items.len(),
        word_at(s, i, rendered_items(style, items, k)),
    ensures
        skip_space(s, i) == i + gap_before(style).len(),
        word_at(s, i + gap_before(style).len(), rendered(items[k])),
        word_at(
            s,
            i + gap_before(style).len() + rendered(items[k]).len(),
            if k + 1 < items.len() {
                seq![','] + rendered_items(style, items, k + 1)
            } else {
                gap_after(style) + seq![']']
            },
        ),
        i + gap_before(style).len() < s.len(),
        s[i + gap_before(style).len()] != ']',
{
    let tail = if k + 1 < items.len() {
        seq![','] + rendered_items(style, items, k + 1)
    } else {
        gap_after(style) + seq![']']
    };
    lemma_word_split(s, i, gap_before(style) + rendered(items[k]), tail);
    lemma_word_split(s, i, gap_before(style), rendered(items[k]));
    lemma_first_char(s, i + gap_before(style).len(), items[k]);
    lemma_gaps(style);
    lemma_skip_gap(s, i, gap_before(style));
}

proof fn lemma_items_parse(
    s: Seq<char>,
    i: int,
    depth: int,
    style: Style,
    items: Seq<Layout>,
    k: int,
)
    requires
        0 <= i,
        0 <= depth < MAX_DEPTH,
        0 <= k < items.len(),
        word_at(s, i, rendered_items(style, items, k)),
        forall|j: int|
            0 <= j < items.len() ==> nested_within(#[trigger] items[j], MAX_DEPTH - depth - 1),
    ensures
        items_at(s, i, depth, values_of_items(items, k)) == Ok::<(JsonValue, int), JsonFault>(
            (
                JsonValue::Array(values_of_items(items, items.len() as int)),
                i + rendered_items(style, items, k).len(),
            ),
        ),
    decreases items, 1int, items.len() - k,
{
    lemma_item_start(s, i, style, items, k);
    lemma_gaps(style);
    let from = i + gap_before(style).len();
    let end = from + rendered(items[k]).len();
    let acc = values_of_items(items, k);
    assert(acc.push(layout_value(items[k])) =~= values_of_items(items, k + 1));
    assert(nested_within(items[k], MAX_DEPTH - depth - 1));
    if k + 1 < items.len() {
        let tail = rendered_items(style, items, k + 1);
        lemma_word_split(s, end, seq![','], tail);
        lemma_word_chars(s, end, seq![',']);
        assert(s[end + 0] == seq![','][0]);
        law_layout_round_trip(s, from, depth + 1, items[k]);
        assert(skip_space(s, end) == end);
        lemma_items_parse(s, end + 1, depth, style, items, k + 1);
    } else {
        let gap = gap_after(style);
        lemma_word_split(s, end, gap, seq![']']);
        lemma_word_chars(s, end, gap);
        lemma_word_chars(s, end + gap.len(), seq![']']);
        assert(s[end + gap.len() + 0] == seq![']'][0]);
        assert(s[end + 0] == gap[0]);
        assert(is_space(gap[0]));
        law_layout_round_trip(s, from, depth + 1, items[k]);
        lemma_skip_gap(s, end, gap);
    }
}

/// Where the text of member `k` starts, once white space is skipped.
proof fn lemma_member_start(
    s: Seq<char>,
    i: int,
    style: Style,
    members: Seq<(Seq<char>, Layout)>,
    k: int,
)
    requires
        0 <= i,
        0 <= k < members.len(),
        word_at(s, i, rendered_members(style, members, k)),
    ensures
        skip_space(s, i) == i + gap_before(style).len(),
        word_at(s, i + gap_before(style).len(), quoted(members[k].0)),
        word_at(s, i + gap_before(style).len() + quoted(members[k].0).len(), seq![':', ' ']),
        word_at(
            s,
            i + gap_before(style).len() + quoted(members[k].0).len() + 2,
            rendered(members[k].1),
        ),
        word_at(
            s,
            i + gap_before(style).len() + quoted(members[k].0).len() + 2 + rendered(
                members[k].1,
            ).len(),
            if k + 1 < members.len() {
                seq![','] + rendered_members(style, members, k + 1)
            } else {
                gap_after(style) + seq!['}']
            },
        ),
        i + gap_before(style).len() < s.len(),
        s[i + gap_before(style).len()] == '"',
{
    let gap = gap_before(style);
    let key = quoted(members[k].0);
    let value = rendered(members[k].1);
    let tail = if k + 1 < members.len() {
        seq![','] + rendered_members(style, members, k + 1)
    } else {
        gap_after(style) + seq!['}']
    };
    lemma_word_split(s, i, gap + key + seq![':', ' '] + value, tail);
    lemma_word_split(s, i, gap + key + seq![':', ' '], value);
    lemma_word_split(s, i, gap + key, seq![':', ' ']);
    lemma_word_split(s, i, gap, key);
    law_string_round_trip(s, i + gap.len(), members[k].0);
    lemma_word_chars(s, i + gap.len(), key);
    lemma_gaps(style);
    lemma_skip_gap(s, i, gap);
}

proof fn lemma_members_parse(
    s: Seq<char>,
    i: int,
    depth: int,
    style: Style,
    members: Seq<(Seq<char>, Layout)>,
    k: int,
)
    requires
        0 <= i,
        0 <= depth < MAX_DEPTH,
        0 <= k < members.len(),
        word_at(s, i, rendered_members(style, members, k)),
        forall|j: int|
            0 <= j < members.len() ==> nested_within(
                (#[trigger] members[j]).1,
                MAX_DEPTH - depth - 1,
            ),
    ensures
        members_at(s, i, depth, values_of_members(members, k)) == Ok::<
            (JsonValue, int),
            JsonFault,
        >(
            (
                JsonValue::Object(values_of_members(members, members.len() as int)),
                i + rendered_members(style, members, k).len(),
            ),
        ),
    decreases members, 1int, members.len() - k,
{
    lemma_member_start(s, i, style, members, k);
    lemma_gaps(style);
    let key_at = i + gap_before(style).len();
    law_string_round_trip(s, key_at, members[k].0);
    let colon = key_at + quoted(members[k].0).len();
    lemma_word_chars(s, colon, seq![':', ' ']);
    assert(s[colon + 0] == seq![':', ' '][0]);
    assert(s[colon + 1] == seq![':', ' '][1]);
    assert(skip_space(s, colon) == colon);
    let from = colon + 2;
    lemma_first_char(s, from, members[k].1);
    assert(word_at(s, colon + 1, seq![' '])) by {
        assert(s.subrange(colon + 1, colon + 2) =~= seq![' ']);
    }
    lemma_skip_gap(s, colon + 1, seq![' ']);
    let end = from + rendered(members[k].1).len();
    let acc = values_of_members(members, k);
    assert(acc.push((members[k].0, layout_value(members[k].1))) =~= values_of_members(
        members,
        k + 1,
    ));
    assert(nested_within(members[k].1, MAX_DEPTH - depth - 1));
    if k + 1 < members.len() {
        let tail = rendered_members(style, members, k + 1);
        lemma_word_split(s, end, seq![','], tail);
        lemma_word_chars(s, end, seq![',']);
        assert(s[end + 0] == seq![','][0]);
        law_layout_round_trip(s, from, depth + 1, members[k].1);
        assert(skip_space(s, end) == end);
        lemma_members_parse(s, end + 1, depth, style, members, k + 1);
    } else {
        let gap = gap_after(style);
        lemma_word_split(s, end, gap, seq!['}']);
        lemma_word_chars(s, end, gap);
        lemma_word_chars(s, end + gap.len(), seq!['}']);
        assert(s[end + gap.len() + 0] == seq!['}'][0]);
        assert(s[end + 0] == gap[0]);
        assert(is_space(gap[0]));
        law_layout_round_trip(s, from, depth + 1, members[k].1);
        lemma_skip_gap(s, end, gap);
    }
}

/// Law: the text of a document is a complete document that holds its value.
pub proof fn law_document_round_trip(layout: Layout)
    requires
        nested_within(layout, MAX_DEPTH as int),
    ensures
        document(rendered(layout)) == Ok::<JsonValue, JsonFault>(layout_value(layout)),
{
    let s = rendered(layout);
    assert(s.subrange(0, s.len() as int) =~= s);
    assert(word_at(s, 0, s));
    lemma_first_char(s, 0, layout);
    law_layout_round_trip(s, 0, 0, layout);
}

/// A document and its layout.
#[derive(Debug)]
pub enum Doc {
    Null,
    Bool(bool),
    Number(u128),
    Text(String),
    Array(Style, Vec<Doc>),
    Object(Style, Vec<(String, Doc)>),
}

/// Documents as mathematical data.
pub open spec fn doc_items(items: Seq<Doc>) -> Seq<Layout> {
    Seq::new(items.len(), |i: int| items[i].view())
}

/// Named documents as mathematical data.
pub open spec fn doc_members(members: Seq<(String, Doc)>) -> Seq<(Seq<char>, Layout)> {
    Seq::new(members.len(), |i: int| (members[i].0@, members[i].1.view()))
}

impl Doc {
    /// The document, as mathematical data.
    pub open spec fn view(&self) -> Layout
        decreases self,
    {
        match *self {
            Doc::Null => Layout::Null,
            Doc::Bool(b) => Layout::Bool(b),
            Doc::Number(n) => Layout::Number(n as nat),
            Doc::Text(text) => Layout::Text(text@),
            Doc::Array(style, items) => Layout::Array(
                style,
                Seq::new(
                    items@.len(),
                    |i: int|
                        if 0 <= i < items@.len() {
                            items@[i].view()
                        } else {
                            Layout::Null
                        },
                ),
            ),
            Doc::Object(style, members) => Layout::Object(
                style,
                Seq::new(
                    members@.len(),
                    |i: int|
                        if 0 <= i < members@.len() {
                            (members@[i].0@, members@[i].1.view())
                        } else {
                            (Seq::empty(), Layout::Null)
                        },
                ),
            ),
        }
    }
}

/// The view of an array.
pub proof fn lemma_doc_array(style: Style, items: Vec<Doc>)
    ensures
        Doc::Array(style, items).view() == Layout::Array(style, doc_items(items@)),
{
    let doc = Doc::Array(style, items);
    assert(doc.view()->Array_1 =~= doc_items(items@));
}

/// The view of an object.
pub proof fn lemma_doc_object(style: Style, members: Vec<(String, Doc)>)
    ensures
        Doc::Object(style, members).view() == Layout::Object(style, doc_members(members@)),
{
    let doc = Doc::Object(style, members);
    assert(doc.view()->Object_1 =~= doc_members(members@));
}

/// Append a text as a string.
pub fn push_json_string(out: &mut String, value: &str)
    ensures
        final(out)@ == old(out)@ + quoted(value@),
{
    let chars = chars_of(value);
    let ghost start = out@;
    out.push('"');
    let mut i: usize = 0;
    proof {
        assert(value@.take(0) =~= Seq::empty());
        assert(out@ =~= start + seq!['"'] + escaped(value@.take(0)));
    }
    while i < chars.len()
        invariant
            i <= chars@.len(),
            chars@ == value@,
            out@ == start + seq!['"'] + escaped(value@.take(i as int)),
        decreases chars@.len() - i,
    {
        let c: char = chars[i];
        let ghost before = out@;
        proof {
            let longer = value@.take(i + 1);
            assert(longer.drop_last() =~= value@.take(i as int));
            assert(longer.last() == c);
        }
        if c == '"' {
            out.push('\\');
            out.push('"');
        } else if c == '\\' {
            out.push('\\');
            out.push('\\');
        } else if c == '\n' {
            out.push('\\');
            out.push('n');
        } else if c == '\r' {
            out.push('\\');
            out.push('r');
        } else if c == '\t' {
            out.push('\\');
            out.push('t');
        } else if ' ' > c {
            proof {
                lemma_char_code(c);
            }
            let code: u8 = c as u8;
            out.push('\\');
            out.push('u');
            out.push('0');
            out.push('0');
            out.push(hex_digit_char(code / 16));
            out.push(hex_digit_char(code % 16));
        } else {
            out.push(c);
        }
        proof {
            assert(out@ =~= before + escaped_char(c));
            assert(start + seq!['"'] + escaped(value@.take(i + 1)) =~= before + escaped_char(c));
        }
        i = i + 1;
    }
    out.push('"');
    proof {
        assert(value@.take(i as int) =~= value@);
        assert(out@ =~= start + quoted(value@));
    }
}

fn push_spaces(out: &mut String, count: usize)
    ensures
        final(out)@ == old(out)@ + spaces(count as int),
{
    let mut i: usize = 0;
    proof {
        assert(out@ =~= old(out)@ + spaces(0));
    }
    while i < count
        invariant
            i <= count,
            out@ == old(out)@ + spaces(i as int),
        decreases count - i,
    {
        out.push(' ');
        i = i + 1;
        proof {
            assert(out@ =~= old(out)@ + spaces(i as int));
        }
    }
}

fn push_gap(out: &mut String, style: Style, before: bool)
    ensures
        final(out)@ == old(out)@ + if before {
            gap_before(style)
        } else {
            gap_after(style)
        },
{
    match style {
        Style::Inline => {
            out.push(' ');
        },
        Style::Block(indent) => {
            out.push('\n');
            let count: usize = if before {
                indent as usize + 2
            } else {
                indent as usize
            };
            push_spaces(out, count);
        },
    }
    proof {
        assert(out@ =~= old(out)@ + if before {
            gap_before(style)
        } else {
            gap_after(style)
        });
    }
}

impl Doc {
    /// Append the text of the document.
    pub fn write(&self, out: &mut String)
        ensures
            final(out)@ == old(out)@ + rendered(self@),
        decreases self, 0int,
    {
        match self {
            Doc::Null => {
                out.push_str("null");
            },
            Doc::Bool(b) => {
                if *b {
                    out.push_str("true");
                } else {
                    out.push_str("false");
                }
            },
            Doc::Number(n) => {
                push_decimal(out, *n);
            },
            Doc::Text(text) => {
                push_json_string(out, text.as_str());
            },
            Doc::Array(style, items) => {
                Doc::write_items(out, *style, items);
                proof {
                    lemma_doc_array(*style, *items);
                }
            },
            Doc::Object(style, members) => {
                Doc::write_members(out, *style, members);
                proof {
                    lemma_doc_object(*style, *members);
                }
            },
        }
    }

    fn write_items(out: &mut String, style: Style, items: &Vec<Doc>)
        ensures
            final(out)@ == old(out)@ + rendered(Layout::Array(style, doc_items(items@))),
        decreases items, 1int,
    {
        let ghost start = out@;
        let ghost layouts = doc_items(items@);
        out.push('[');
        if items.len() == 0 {
            out.push(']');
            proof {
                assert(out@ =~= start + seq!['[', ']']);
            }
            return;
        }
        let mut i: usize = 0;
        let ghost whole = start + (seq!['['] + rendered_items(style, layouts, 0));
        proof {
            assert(out@ + rendered_items(style, layouts, 0) =~= whole);
        }
        while i < items.len()
            invariant
                i <= items@.len(),
                items@.len() > 0,
                layouts == doc_items(items@),
                whole == (if i < items@.len() {
                    out@ + rendered_items(style, layouts, i as int)
                } else {
                    out@
                }),
            decreases items@.len() - i,
        {
            let ghost before = out@;
            push_gap(out, style, true);
            items[i].write(out);
            proof {
                assert(layouts[i as int] == items@[i as int].view());
            }
            if i + 1 < items.len() {
                out.push(',');
                proof {
                    let tail = rendered_items(style, layouts, i + 1);
                    assert(out@ + tail =~= before + (gap_before(style) + rendered(
                        layouts[i as int],
                    ) + (seq![','] + tail)));
                }
            } else {
                push_gap(out, style, false);
                out.push(']');
                proof {
                    assert(out@ =~= before + (gap_before(style) + rendered(layouts[i as int]) + (
                    gap_after(style) + seq![']'])));
                }
            }
            i = i + 1;
        }
    }

    fn write_members(out: &mut String, style: Style, members: &Vec<(String, Doc)>)
        ensures
            final(out)@ == old(out)@ + rendered(Layout::Object(style, doc_members(members@))),
        decreases members, 1int,
    {
        let ghost start = out@;
        let ghost layouts = doc_members(members@);
        out.push('{');
        if members.len() == 0 {
            out.push('}');
            proof {
                assert(out@ =~= start + seq!['{', '}']);
            }
            return;
        }
        let mut i: usize = 0;
        let ghost whole = start + (seq!['{'] + rendered_members(style, layouts, 0));
        proof {
            assert(out@ + rendered_members(style, layouts, 0) =~= whole);
        }
        while i < members.len()
            invariant
                i <= members@.len(),
                members@.len() > 0,
                layouts == doc_members(members@),
                whole == (if i < members@.len() {
                    out@ + rendered_members(style, layouts, i as int)
                } else {
                    out@
                }),
            decreases members@.len() - i,
        {
            let ghost before = out@;
            push_gap(out, style, true);
            push_json_string(out, members[i].0.as_str());
            out.push(':');
            out.push(' ');
            members[i].1.write(out);
            let ghost entry = layouts[i as int];
            proof {
                assert(entry == (members@[i as int].0@, members@[i as int].1.view()));
            }
            if i + 1 < members.len() {
                out.push(',');
                proof {
                    let tail = rendered_members(style, layouts, i + 1);
                    assert(out@ + tail =~= before + (gap_before(style) + quoted(entry.0) + seq![
                        ':',
                        ' ',
                    ] + rendered(entry.1) + (seq![','] + tail)));
                }
            } else {
                push_gap(out, style, false);
                out.push('}');
                proof {
                    assert(out@ =~= before + (gap_before(style) + quoted(entry.0) + seq![':', ' ']
                        + rendered(entry.1) + (gap_after(style) + seq!['}'])));
                }
            }
            i = i + 1;
        }
    }

    /// The text of the document.
    pub fn to_text(&self) -> (r: String)
        ensures
            r@ == rendered(self@),
    {
        let mut out = String::new();
        self.write(&mut out);
        proof {
            assert(out@ =~= rendered(self@));
        }
        out
    }
}

} // verus!
