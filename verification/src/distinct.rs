//! Different plans and indexes have different texts.

use crate::document::{
    law_document_round_trip, layout_value, rendered, values_of_items, values_of_members, Layout,
    Style,
};
use crate::framing::Framing;
use crate::identity::Identity;
use crate::index::{index_layout, index_members, offset_layouts, starts_members, Index, RecordIndex};
use crate::manifest::{
    framing_members, identity_members, index_ref_members, number_layout, partitioning_members,
    plan_layout, plan_members, range_layouts, range_members, source_members, text_layout, IndexRef,
    Plan, RangePlan,
};
use crate::ranges::int_ranges;
use crate::roundtrip::{lemma_index_nested, lemma_plan_nested};
use crate::text::{hex_text, law_decimal_round_trip, law_hex_round_trip};
use vstd::prelude::*;

verus! {

/// Both documents hold the same value.
spec fn same(a: Layout, b: Layout) -> bool {
    layout_value(a) == layout_value(b)
}

/// Objects of the same value have members of the same names and values.
proof fn lemma_members(
    a: Style,
    b: Style,
    m: Seq<(Seq<char>, Layout)>,
    n: Seq<(Seq<char>, Layout)>,
)
    requires
        same(Layout::Object(a, m), Layout::Object(b, n)),
    ensures
        m.len() == n.len(),
        forall|i: int|
            0 <= i < m.len() ==> (#[trigger] m[i]).0 == n[i].0 && same(m[i].1, n[i].1),
{
    let x = layout_value(Layout::Object(a, m))->Object_0;
    let y = layout_value(Layout::Object(b, n))->Object_0;
    assert(x =~= values_of_members(m, m.len() as int));
    assert(y =~= values_of_members(n, n.len() as int));
    assert forall|i: int| 0 <= i < m.len() implies (#[trigger] m[i]).0 == n[i].0 && same(
        m[i].1,
        n[i].1,
    ) by {
        assert(x[i] == (m[i].0, layout_value(m[i].1)));
        assert(y[i] == (n[i].0, layout_value(n[i].1)));
    }
}

/// Arrays of the same value have items of the same values.
proof fn lemma_items(a: Style, b: Style, m: Seq<Layout>, n: Seq<Layout>)
    requires
        same(Layout::Array(a, m), Layout::Array(b, n)),
    ensures
        m.len() == n.len(),
        forall|i: int| 0 <= i < m.len() ==> same(#[trigger] m[i], n[i]),
{
    let x = layout_value(Layout::Array(a, m))->Array_0;
    let y = layout_value(Layout::Array(b, n))->Array_0;
    assert(x =~= values_of_items(m, m.len() as int));
    assert(y =~= values_of_items(n, n.len() as int));
    assert forall|i: int| 0 <= i < m.len() implies same(#[trigger] m[i], n[i]) by {
        assert(x[i] == layout_value(m[i]));
        assert(y[i] == layout_value(n[i]));
    }
}

/// Numbers of the same text are equal.
proof fn lemma_numbers(m: nat, n: nat)
    requires
        same(Layout::Number(m), Layout::Number(n)),
    ensures
        m == n,
{
    law_decimal_round_trip(m);
    law_decimal_round_trip(n);
}

proof fn lemma_optional_numbers(m: Option<nat>, n: Option<nat>)
    requires
        same(number_layout(m), number_layout(n)),
    ensures
        m == n,
{
    if let (Some(x), Some(y)) = (m, n) {
        lemma_numbers(x, y);
    }
}

proof fn lemma_optional_texts(m: Option<Seq<char>>, n: Option<Seq<char>>)
    requires
        same(text_layout(m), text_layout(n)),
    ensures
        m == n,
{
}

proof fn lemma_sources(
    path: Seq<char>,
    identity: Identity,
    other_path: Seq<char>,
    other: Identity,
    size: nat,
    other_size: nat,
)
    requires
        same(
            Layout::Object(Style::Block(2), source_members(path, size, identity)),
            Layout::Object(Style::Block(2), source_members(other_path, other_size, other)),
        ),
        size == identity.size,
        other_size == other.size,
    ensures
        path == other_path,
        identity == other,
{
    let m = source_members(path, size, identity);
    let n = source_members(other_path, other_size, other);
    lemma_members(Style::Block(2), Style::Block(2), m, n);
    assert(same(m[0].1, n[0].1));
    assert(same(m[1].1, n[1].1));
    assert(same(m[2].1, n[2].1));
    lemma_numbers(size, other_size);
    let x = identity_members(identity);
    let y = identity_members(other);
    lemma_members(Style::Block(4), Style::Block(4), x, y);
    assert(same(x[0].1, y[0].1));
    assert(same(x[1].1, y[1].1));
    assert(same(x[2].1, y[2].1));
    assert(same(x[3].1, y[3].1));
    assert(same(x[4].1, y[4].1));
    lemma_optional_numbers(identity.modified_unix_nanos, other.modified_unix_nanos);
    lemma_optional_numbers(identity.device, other.device);
    lemma_optional_numbers(identity.inode, other.inode);
    lemma_optional_texts(identity.sample_fingerprint, other.sample_fingerprint);
    lemma_numbers(identity.sample_bytes, other.sample_bytes);
}

/// The numbers of a framing are not negative.
pub open spec fn natural(framing: Framing) -> bool {
    match framing {
        Framing::FixedWidth(record_bytes) => record_bytes >= 0,
        Framing::LengthPrefixed { prefix_bytes, .. } => prefix_bytes >= 0,
        _ => true,
    }
}

proof fn lemma_framings(f: Framing, g: Framing)
    requires
        same(
            Layout::Object(Style::Block(2), framing_members(f)),
            Layout::Object(Style::Block(2), framing_members(g)),
        ),
        natural(f),
        natural(g),
    ensures
        f == g,
{
    reveal_strlit("delimiter");
    reveal_strlit("fixed_width");
    reveal_strlit("length_prefixed");
    reveal_strlit("custom");
    let m = framing_members(f);
    let n = framing_members(g);
    lemma_members(Style::Block(2), Style::Block(2), m, n);
    assert(same(m[0].1, n[0].1));
    assert("delimiter"@.len() == 9 && "fixed_width"@.len() == 11 && "length_prefixed"@.len() == 15
        && "custom"@.len() == 6);
    assert(m[0].1 == n[0].1);
    assert(same(m[1].1, n[1].1));
    match (f, g) {
        (Framing::Delimiter(x), Framing::Delimiter(y)) => {
            assert(hex_text(x) == hex_text(y));
            law_hex_round_trip(x);
            law_hex_round_trip(y);
        },
        (Framing::FixedWidth(x), Framing::FixedWidth(y)) => {
            lemma_numbers(x as nat, y as nat);
        },
        (
            Framing::LengthPrefixed { prefix_bytes: x, .. },
            Framing::LengthPrefixed { prefix_bytes: y, .. },
        ) => {
            lemma_numbers(x as nat, y as nat);
            assert(same(m[2].1, n[2].1));
            assert(same(m[3].1, n[3].1));
        },
        _ => {},
    }
}

proof fn lemma_index_refs(a: IndexRef, b: IndexRef)
    requires
        same(
            Layout::Object(Style::Block(4), index_ref_members(a)),
            Layout::Object(Style::Block(4), index_ref_members(b)),
        ),
    ensures
        a == b,
{
    let m = index_ref_members(a);
    let n = index_ref_members(b);
    lemma_members(Style::Block(4), Style::Block(4), m, n);
    assert(same(m[0].1, n[0].1));
    assert(same(m[1].1, n[1].1));
    assert(same(m[2].1, n[2].1));
    lemma_optional_texts(a.path, b.path);
    lemma_numbers(a.stride, b.stride);
    lemma_numbers(a.record_count, b.record_count);
}

proof fn lemma_partitionings(p: Plan, q: Plan)
    requires
        same(
            Layout::Object(Style::Block(2), partitioning_members(p)),
            Layout::Object(Style::Block(2), partitioning_members(q)),
        ),
    ensures
        p.requested_partitions == q.requested_partitions,
        p.source_mode == q.source_mode,
        p.window_bytes == q.window_bytes,
        p.index == q.index,
{
    reveal_strlit("mmap");
    reveal_strlit("windowed");
    reveal_strlit("pread");
    let m = partitioning_members(p);
    let n = partitioning_members(q);
    lemma_members(Style::Block(2), Style::Block(2), m, n);
    assert(same(m[1].1, n[1].1));
    assert(same(m[3].1, n[3].1));
    assert(same(m[4].1, n[4].1));
    assert(same(m[5].1, n[5].1));
    lemma_numbers(p.requested_partitions, q.requested_partitions);
    lemma_optional_numbers(p.window_bytes, q.window_bytes);
    assert("mmap"@.len() == 4 && "windowed"@.len() == 8 && "pread"@.len() == 5);
    if let (Some(x), Some(y)) = (p.source_mode, q.source_mode) {
        assert(x.name() == y.name());
    }
    if let (Some(x), Some(y)) = (p.index, q.index) {
        lemma_index_refs(x, y);
    }
}

proof fn lemma_range_lists(p: Seq<(int, int)>, q: Seq<(int, int)>)
    requires
        same(
            Layout::Array(Style::Block(2), range_layouts(p)),
            Layout::Array(Style::Block(2), range_layouts(q)),
        ),
        forall|i: int| 0 <= i < p.len() ==> 0 <= (#[trigger] p[i]).0 && 0 <= p[i].1,
        forall|i: int| 0 <= i < q.len() ==> 0 <= (#[trigger] q[i]).0 && 0 <= q[i].1,
    ensures
        p == q,
{
    let x = range_layouts(p);
    let y = range_layouts(q);
    lemma_items(Style::Block(2), Style::Block(2), x, y);
    assert forall|i: int| 0 <= i < p.len() implies p[i] == q[i] by {
        assert(same(x[i], y[i]));
        let m = range_members(i, p[i]);
        let n = range_members(i, q[i]);
        lemma_members(Style::Inline, Style::Inline, m, n);
        assert(same(m[1].1, n[1].1));
        assert(same(m[2].1, n[2].1));
        lemma_numbers(p[i].0 as nat, q[i].0 as nat);
        lemma_numbers(p[i].1 as nat, q[i].1 as nat);
    }
    assert(p =~= q);
}

/// Law: plans have the same text exactly when they are the same plan, whether or
/// not their texts would be accepted again. The size of a plan is that of its
/// identity, and no number of it is negative.
pub proof fn law_plan_texts_are_distinct(p: Plan, q: Plan)
    requires
        p.source_size == p.identity.size,
        q.source_size == q.identity.size,
        natural(p.framing),
        natural(q.framing),
        forall|i: int|
            0 <= i < p.ranges.len() ==> 0 <= (#[trigger] p.ranges[i]).0 && 0 <= p.ranges[i].1,
        forall|i: int|
            0 <= i < q.ranges.len() ==> 0 <= (#[trigger] q.ranges[i]).0 && 0 <= q.ranges[i].1,
    ensures
        rendered(plan_layout(p)) == rendered(plan_layout(q)) <==> p == q,
{
    if rendered(plan_layout(p)) == rendered(plan_layout(q)) {
        lemma_plan_nested(p);
        lemma_plan_nested(q);
        law_document_round_trip(plan_layout(p));
        law_document_round_trip(plan_layout(q));
        let m = plan_members(p);
        let n = plan_members(q);
        lemma_members(Style::Block(0), Style::Block(0), m, n);
        assert(same(m[3].1, n[3].1));
        assert(same(m[4].1, n[4].1));
        assert(same(m[5].1, n[5].1));
        assert(same(m[6].1, n[6].1));
        lemma_sources(
            p.source_path,
            p.identity,
            q.source_path,
            q.identity,
            p.source_size,
            q.source_size,
        );
        lemma_framings(p.framing, q.framing);
        lemma_partitionings(p, q);
        lemma_range_lists(p.ranges, q.ranges);
    }
}

/// Law: the texts of two plans are the same exactly when the plans are.
pub proof fn law_range_plan_texts_are_distinct(p: RangePlan, q: RangePlan)
    requires
        p.source_size == p.identity.size,
        q.source_size == q.identity.size,
    ensures
        rendered(plan_layout(p@)) == rendered(plan_layout(q@)) <==> p@ == q@,
{
    assert(p@.ranges == int_ranges(p.ranges@));
    assert(q@.ranges == int_ranges(q.ranges@));
    law_plan_texts_are_distinct(p@, q@);
}

/// Law: indexes have the same text exactly when they are the same index, whether
/// or not their texts would be accepted again. The size of an index is that of
/// its identity, and no number of its framing is negative.
pub proof fn law_index_texts_are_distinct(a: Index, b: Index)
    requires
        a.source_size == a.identity.size,
        b.source_size == b.identity.size,
        natural(a.framing),
        natural(b.framing),
    ensures
        rendered(index_layout(a)) == rendered(index_layout(b)) <==> a == b,
{
    if rendered(index_layout(a)) == rendered(index_layout(b)) {
        lemma_index_nested(a);
        lemma_index_nested(b);
        law_document_round_trip(index_layout(a));
        law_document_round_trip(index_layout(b));
        let m = index_members(a);
        let n = index_members(b);
        lemma_members(Style::Block(0), Style::Block(0), m, n);
        assert(same(m[3].1, n[3].1));
        assert(same(m[4].1, n[4].1));
        assert(same(m[5].1, n[5].1));
        lemma_sources(
            a.source_path,
            a.identity,
            b.source_path,
            b.identity,
            a.source_size,
            b.source_size,
        );
        lemma_framings(a.framing, b.framing);
        let x = starts_members(a);
        let y = starts_members(b);
        lemma_members(Style::Block(2), Style::Block(2), x, y);
        assert(same(x[0].1, y[0].1));
        assert(same(x[1].1, y[1].1));
        assert(same(x[2].1, y[2].1));
        lemma_numbers(a.stride, b.stride);
        lemma_numbers(a.record_count, b.record_count);
        let v = offset_layouts(a.offsets);
        let w = offset_layouts(b.offsets);
        lemma_items(Style::Block(4), Style::Block(4), v, w);
        assert forall|i: int| 0 <= i < a.offsets.len() implies a.offsets[i] == b.offsets[i] by {
            assert(same(v[i], w[i]));
            lemma_numbers(a.offsets[i], b.offsets[i]);
        }
        assert(a.offsets =~= b.offsets);
    }
}

/// Law: the texts of two indexes are the same exactly when the indexes are.
pub proof fn law_record_index_texts_are_distinct(a: RecordIndex, b: RecordIndex)
    requires
        a.source_size == a.identity.size,
        b.source_size == b.identity.size,
    ensures
        rendered(index_layout(a@)) == rendered(index_layout(b@)) <==> a@ == b@,
{
    law_index_texts_are_distinct(a@, b@);
}

} // verus!
