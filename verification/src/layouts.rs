//! How documents are laid out, entry by entry.

use crate::document::{
    gap_after, gap_before, quoted, rendered, rendered_items, rendered_members, spaces, Layout,
    Style,
};
use vstd::prelude::*;

verus! {

/// A line feed and the indent of a line.
pub open spec fn new_line(indent: int) -> Seq<char> {
    seq!['\n'] + Seq::new(indent as nat, |i: int| ' ')
}

/// Law: inline, one space stands in front of an entry and behind the last one; in
/// a block, each entry stands on a line of its own, two spaces further in than
/// the line on which the block ends.
pub proof fn law_gaps(style: Style)
    ensures
        match style {
            Style::Inline => gap_before(style) == seq![' '] && gap_after(style) == seq![' '],
            Style::Block(indent) => gap_before(style) == new_line(indent + 2) && gap_after(style)
                == new_line(indent as int),
        },
{
    if let Style::Block(indent) = style {
        assert(spaces(indent + 2) =~= Seq::new((indent + 2) as nat, |i: int| ' '));
        assert(spaces(indent as int) =~= Seq::new(indent as nat, |i: int| ' '));
    }
}

proof fn lemma_items_grow(style: Style, items: Seq<Layout>, x: Layout, k: int) -> (front: Seq<char>)
    requires
        0 <= k < items.len(),
    ensures
        rendered_items(style, items, k) == front + gap_after(style) + seq![']'],
        rendered_items(style, items.push(x), k) == front + seq![','] + gap_before(style)
            + rendered(x) + gap_after(style) + seq![']'],
    decreases items.len() - k,
{
    let more = items.push(x);
    let own = gap_before(style) + rendered(items[k]);
    assert(more[k] == items[k]);
    if k + 1 < items.len() {
        let rest = lemma_items_grow(style, items, x, k + 1);
        let front = own + seq![','] + rest;
        assert(rendered_items(style, items, k) =~= front + gap_after(style) + seq![']']);
        assert(rendered_items(style, more, k) =~= front + seq![','] + gap_before(style) + rendered(
            x,
        ) + gap_after(style) + seq![']']);
        front
    } else {
        assert(more[k + 1] == x);
        assert(rendered_items(style, more, k + 1) =~= gap_before(style) + rendered(x) + gap_after(
            style,
        ) + seq![']']);
        assert(rendered_items(style, items, k) =~= own + gap_after(style) + seq![']']);
        assert(rendered_items(style, more, k) =~= own + seq![','] + gap_before(style) + rendered(x)
            + gap_after(style) + seq![']']);
        own
    }
}

/// Law: an array is written between brackets, with a comma between two items. One
/// more item adds a comma, the gap in front of an entry and the item itself to
/// what stands in front of the closing gap.
pub proof fn law_arrays_grow_by_an_item(style: Style, items: Seq<Layout>, x: Layout) -> (front:
    Seq<char>)
    ensures
        rendered(Layout::Array(style, Seq::empty())) == seq!['[', ']'],
        rendered(Layout::Array(style, seq![x])) == seq!['['] + gap_before(style) + rendered(x)
            + gap_after(style) + seq![']'],
        items.len() > 0 ==> rendered(Layout::Array(style, items)) == front + gap_after(style)
            + seq![']'],
        items.len() > 0 ==> rendered(Layout::Array(style, items.push(x))) == front + seq![',']
            + gap_before(style) + rendered(x) + gap_after(style) + seq![']'],
{
    let one = seq![x];
    assert(one[0] == x);
    assert(rendered_items(style, one, 0) =~= gap_before(style) + rendered(x) + gap_after(style)
        + seq![']']);
    assert(rendered(Layout::Array(style, one)) =~= seq!['['] + gap_before(style) + rendered(x)
        + gap_after(style) + seq![']']);
    if items.len() > 0 {
        let rest = lemma_items_grow(style, items, x, 0);
        let front = seq!['['] + rest;
        assert(rendered(Layout::Array(style, items)) =~= front + gap_after(style) + seq![']']);
        assert(rendered(Layout::Array(style, items.push(x))) =~= front + seq![','] + gap_before(
            style,
        ) + rendered(x) + gap_after(style) + seq![']']);
        front
    } else {
        Seq::empty()
    }
}

proof fn lemma_members_grow(
    style: Style,
    members: Seq<(Seq<char>, Layout)>,
    x: (Seq<char>, Layout),
    k: int,
) -> (front: Seq<char>)
    requires
        0 <= k < members.len(),
    ensures
        rendered_members(style, members, k) == front + gap_after(style) + seq!['}'],
        rendered_members(style, members.push(x), k) == front + seq![','] + gap_before(style)
            + quoted(x.0) + seq![':', ' '] + rendered(x.1) + gap_after(style) + seq!['}'],
    decreases members.len() - k,
{
    let more = members.push(x);
    let own = gap_before(style) + quoted(members[k].0) + seq![':', ' '] + rendered(members[k].1);
    assert(more[k] == members[k]);
    if k + 1 < members.len() {
        let rest = lemma_members_grow(style, members, x, k + 1);
        let front = own + seq![','] + rest;
        assert(rendered_members(style, members, k) =~= front + gap_after(style) + seq!['}']);
        assert(rendered_members(style, more, k) =~= front + seq![','] + gap_before(style) + quoted(
            x.0,
        ) + seq![':', ' '] + rendered(x.1) + gap_after(style) + seq!['}']);
        front
    } else {
        assert(more[k + 1] == x);
        assert(rendered_members(style, more, k + 1) =~= gap_before(style) + quoted(x.0) + seq![
            ':',
            ' ',
        ] + rendered(x.1) + gap_after(style) + seq!['}']);
        assert(rendered_members(style, members, k) =~= own + gap_after(style) + seq!['}']);
        assert(rendered_members(style, more, k) =~= own + seq![','] + gap_before(style) + quoted(
            x.0,
        ) + seq![':', ' '] + rendered(x.1) + gap_after(style) + seq!['}']);
        own
    }
}

/// Law: an object is written between braces, with a comma between two members,
/// and each member as its quoted name, a colon, a space and its value. One more
/// member adds a comma, the gap in front of an entry and the member itself to
/// what stands in front of the closing gap.
pub proof fn law_objects_grow_by_a_member(
    style: Style,
    members: Seq<(Seq<char>, Layout)>,
    x: (Seq<char>, Layout),
) -> (front: Seq<char>)
    ensures
        rendered(Layout::Object(style, Seq::empty())) == seq!['{', '}'],
        rendered(Layout::Object(style, seq![x])) == seq!['{'] + gap_before(style) + quoted(x.0)
            + seq![':', ' '] + rendered(x.1) + gap_after(style) + seq!['}'],
        members.len() > 0 ==> rendered(Layout::Object(style, members)) == front + gap_after(style)
            + seq!['}'],
        members.len() > 0 ==> rendered(Layout::Object(style, members.push(x))) == front + seq![',']
            + gap_before(style) + quoted(x.0) + seq![':', ' '] + rendered(x.1) + gap_after(style)
            + seq!['}'],
{
    let one = seq![x];
    assert(one[0] == x);
    assert(rendered_members(style, one, 0) =~= gap_before(style) + quoted(x.0) + seq![':', ' ']
        + rendered(x.1) + gap_after(style) + seq!['}']);
    assert(rendered(Layout::Object(style, one)) =~= seq!['{'] + gap_before(style) + quoted(x.0)
        + seq![':', ' '] + rendered(x.1) + gap_after(style) + seq!['}']);
    if members.len() > 0 {
        let rest = lemma_members_grow(style, members, x, 0);
        let front = seq!['{'] + rest;
        assert(rendered(Layout::Object(style, members)) =~= front + gap_after(style) + seq!['}']);
        assert(rendered(Layout::Object(style, members.push(x))) =~= front + seq![',']
            + gap_before(style) + quoted(x.0) + seq![':', ' '] + rendered(x.1) + gap_after(style)
            + seq!['}']);
        front
    } else {
        Seq::empty()
    }
}

} // verus!
