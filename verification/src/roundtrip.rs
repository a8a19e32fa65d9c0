//! What is written is what is read: the laws that tie the writer of plans to
//! their reader.

use crate::document::{
    law_document_round_trip, layout_value, nested_within, rendered, values_of_members, Layout,
    Style,
};
use crate::framing::{usable, Framing, FramingDescriptor};
use crate::identity::Identity;
use crate::index::{
    check_offsets, index_layout, index_members, offset_layouts, read_index, read_index_value,
    read_offsets, read_starts, starts_members, Index, RecordIndex,
};
use crate::json::{document, lemma_member_index, lookup, unsigned_of, JsonValue, MAX_DEPTH};
use crate::manifest::{
    framing_members, identity_members, index_ref_members, partitioning_members, plan_layout,
    plan_members, program_members, range_layouts, range_members, source_members, IndexRef, Plan,
    RangePlan,
};
use crate::ranges::int_ranges;
use crate::reader::{
    check_object, field, first_duplicate, framing_of, identity_of, named_before, read_entries,
    read_framing, read_header, read_index_ref, read_mode, read_partitioning, read_plan,
    read_plan_value, read_range, read_ranges, read_source, Refusal, MAX_MANIFEST_BYTES,
    MAX_MANIFEST_RANGES,
};
use crate::scan::{range_entries, range_entry, scan_plan, scan_plan_of, ScanPlan};
use crate::source::SourceMode;
use crate::text::{dec_text, hex_text, is_digit, law_decimal_round_trip, law_hex_round_trip};
use vstd::prelude::*;
use vstd::utf8::encode_utf8;

verus! {

/// No name occurs twice.
pub open spec fn keys_distinct(members: Seq<(Seq<char>, Layout)>) -> bool {
    forall|i: int, j: int|
        0 <= i < j < members.len() ==> (#[trigger] members[i]).0 != (#[trigger] members[j]).0
}

/// What the reader finds in an object that was written without duplicate
/// names.
pub proof fn lemma_object(style: Style, members: Seq<(Seq<char>, Layout)>)
    requires
        keys_distinct(members),
    ensures
        layout_value(Layout::Object(style, members)) == JsonValue::Object(
            values_of_members(members, members.len() as int),
        ),
        forall|context: Seq<char>| #[trigger]
            check_object(layout_value(Layout::Object(style, members)), context) == Ok::<
                (),
                Refusal,
            >(()),
{
    let value = layout_value(Layout::Object(style, members));
    let values = values_of_members(members, members.len() as int);
    assert(value->Object_0 =~= values);
    lemma_no_duplicate(values, 0);
}

/// What the reader finds under the name of member `k`.
pub proof fn lemma_field(style: Style, members: Seq<(Seq<char>, Layout)>, k: int)
    requires
        keys_distinct(members),
        0 <= k < members.len(),
    ensures
        forall|context: Seq<char>| #[trigger]
            field(layout_value(Layout::Object(style, members)), context, members[k].0) == Ok::<
                JsonValue,
                Refusal,
            >(layout_value(members[k].1)),
        lookup(layout_value(Layout::Object(style, members)), members[k].0) == Some(
            layout_value(members[k].1),
        ),
{
    lemma_object(style, members);
    let values = values_of_members(members, members.len() as int);
    assert forall|i: int| 0 <= i < k implies (#[trigger] values[i]).0 != members[k].0 by {
        assert(values[i].0 == members[i].0);
    }
    lemma_member_index(values, members[k].0, k);
}

proof fn lemma_no_duplicate(values: Seq<(Seq<char>, JsonValue)>, k: int)
    requires
        0 <= k,
        forall|i: int, j: int|
            0 <= i < j < values.len() ==> (#[trigger] values[i]).0 != (#[trigger] values[j]).0,
    ensures
        first_duplicate(values, k) is None,
    decreases values.len() - k,
{
    if k < values.len() {
        assert(!named_before(values, k));
        lemma_no_duplicate(values, k + 1);
    }
}

/// A number that was written is read back.
pub proof fn lemma_number_value(n: nat, max: nat)
    requires
        n <= max,
    ensures
        unsigned_of(layout_value(Layout::Number(n)), max) == Some(n),
{
    law_decimal_round_trip(n);
    let s = dec_text(n);
    assert(is_digit(s[0]));
    assert(s[0] != '+');
}

proof fn lemma_identity_keys(identity: Identity)
    ensures
        keys_distinct(identity_members(identity)),
{
    reveal_strlit("modified_unix_nanos");
    reveal_strlit("device");
    reveal_strlit("inode");
    reveal_strlit("sample_fingerprint");
    reveal_strlit("sample_bytes");
    let members = identity_members(identity);
    assert forall|i: int, j: int| 0 <= i < j < members.len() implies (#[trigger] members[i]).0 != (
    #[trigger] members[j]).0 by {
        assert(members[i].0.len() != members[j].0.len());
    }
}

proof fn lemma_source_keys(path: Seq<char>, size: nat, identity: Identity)
    ensures
        keys_distinct(source_members(path, size, identity)),
{
    reveal_strlit("path");
    reveal_strlit("size");
    reveal_strlit("identity");
    let members = source_members(path, size, identity);
    assert forall|i: int, j: int| 0 <= i < j < members.len() implies (#[trigger] members[i]).0 != (
    #[trigger] members[j]).0 by {
        assert(members[i].0[0] != members[j].0[0]);
    }
}

pub proof fn lemma_framing_keys(framing: Framing)
    ensures
        keys_distinct(framing_members(framing)),
{
    reveal_strlit("strategy");
    reveal_strlit("delimiter_hex");
    reveal_strlit("delimiter_len");
    reveal_strlit("record_bytes");
    reveal_strlit("prefix_bytes");
    reveal_strlit("little_endian");
    reveal_strlit("length_includes_prefix");
    reveal_strlit("name");
    let members = framing_members(framing);
    assert forall|i: int, j: int| 0 <= i < j < members.len() implies (#[trigger] members[i]).0 != (
    #[trigger] members[j]).0 by {
        assert(members[i].0.len() != members[j].0.len() || members[i].0[10] != members[j].0[10]);
    }
}

proof fn lemma_index_ref_keys(index: IndexRef)
    ensures
        keys_distinct(index_ref_members(index)),
{
    reveal_strlit("path");
    reveal_strlit("stride");
    reveal_strlit("record_count");
    let members = index_ref_members(index);
    assert forall|i: int, j: int| 0 <= i < j < members.len() implies (#[trigger] members[i]).0 != (
    #[trigger] members[j]).0 by {
        assert(members[i].0.len() != members[j].0.len());
    }
}

pub proof fn lemma_partitioning_keys(plan: Plan)
    ensures
        keys_distinct(partitioning_members(plan)),
{
    reveal_strlit("strategy");
    reveal_strlit("requested_partitions");
    reveal_strlit("actual_partitions");
    reveal_strlit("source_mode");
    reveal_strlit("window_bytes");
    reveal_strlit("source_index");
    let members = partitioning_members(plan);
    assert forall|i: int, j: int| 0 <= i < j < members.len() implies (#[trigger] members[i]).0 != (
    #[trigger] members[j]).0 by {
        assert(members[i].0.len() != members[j].0.len() || members[i].0[0] != members[j].0[0]);
    }
}

pub proof fn lemma_range_keys(i: int, range: (int, int))
    ensures
        keys_distinct(range_members(i, range)),
{
    reveal_strlit("index");
    reveal_strlit("start");
    reveal_strlit("end");
    reveal_strlit("length");
    let members = range_members(i, range);
    assert forall|a: int, b: int| 0 <= a < b < members.len() implies (#[trigger] members[a]).0 != (
    #[trigger] members[b]).0 by {
        assert(members[a].0[0] != members[b].0[0]);
    }
}

pub proof fn lemma_plan_keys(plan: Plan)
    ensures
        keys_distinct(plan_members(plan)),
{
    reveal_strlit("schema");
    reveal_strlit("schema_version");
    reveal_strlit("planner");
    reveal_strlit("source");
    reveal_strlit("framing");
    reveal_strlit("partitioning");
    reveal_strlit("ranges");
    let members = plan_members(plan);
    assert forall|i: int, j: int| 0 <= i < j < members.len() implies (#[trigger] members[i]).0 != (
    #[trigger] members[j]).0 by {
        assert(members[i].0.len() != members[j].0.len() || members[i].0[0] != members[j].0[0]
            || members[i].0[1] != members[j].0[1]);
    }
}

/// The numbers of an identity fit the fields they are read into.
pub open spec fn identity_fits(identity: Identity) -> bool {
    &&& identity.size <= u64::MAX
    &&& identity.modified_unix_nanos matches Some(n) ==> n <= u128::MAX
    &&& identity.device matches Some(n) ==> n <= u64::MAX
    &&& identity.inode matches Some(n) ==> n <= u64::MAX
    &&& identity.sample_bytes <= usize::MAX
}

/// The numbers of a framing fit the fields they are read into.
pub open spec fn framing_fits(framing: Framing) -> bool {
    match framing {
        Framing::Delimiter(delimiter) => delimiter.len() <= usize::MAX,
        Framing::FixedWidth(record_bytes) => record_bytes <= usize::MAX,
        Framing::LengthPrefixed { prefix_bytes, .. } => prefix_bytes <= u8::MAX,
        Framing::Custom(_) => true,
    }
}

/// Law: an identity that was written is read back as it was.
pub proof fn law_identity_round_trip(style: Style, path: Seq<char>, identity: Identity)
    requires
        identity_fits(identity),
    ensures
        identity_of(
            layout_value(Layout::Object(style, source_members(path, identity.size, identity))),
        ) == Some(identity),
{
    let members = source_members(path, identity.size, identity);
    lemma_source_keys(path, identity.size, identity);
    lemma_field(style, members, 1);
    lemma_field(style, members, 2);
    lemma_number_value(identity.size, u64::MAX as nat);
    let inner = identity_members(identity);
    lemma_identity_keys(identity);
    lemma_field(Style::Block(4), inner, 0);
    lemma_field(Style::Block(4), inner, 1);
    lemma_field(Style::Block(4), inner, 2);
    lemma_field(Style::Block(4), inner, 3);
    lemma_field(Style::Block(4), inner, 4);
    if let Some(n) = identity.modified_unix_nanos {
        lemma_number_value(n, u128::MAX as nat);
    }
    if let Some(n) = identity.device {
        lemma_number_value(n, u64::MAX as nat);
    }
    if let Some(n) = identity.inode {
        lemma_number_value(n, u64::MAX as nat);
    }
    lemma_number_value(identity.sample_bytes, u64::MAX as nat);
}

/// Law: a framing that was written is read back as it was, unless it is a
/// delimiter without bytes.
pub proof fn law_framing_round_trip(style: Style, framing: Framing)
    requires
        framing_fits(framing),
        framing matches Framing::Delimiter(delimiter) ==> delimiter.len() > 0,
        framing matches Framing::FixedWidth(record_bytes) ==> record_bytes >= 0,
        framing matches Framing::LengthPrefixed { prefix_bytes, .. } ==> prefix_bytes >= 0,
    ensures
        framing_of(layout_value(Layout::Object(style, framing_members(framing)))) == Some(framing),
{
    reveal_strlit("delimiter");
    reveal_strlit("fixed_width");
    reveal_strlit("length_prefixed");
    reveal_strlit("custom");
    let members = framing_members(framing);
    lemma_framing_keys(framing);
    lemma_field(style, members, 0);
    lemma_field(style, members, 1);
    let value = layout_value(Layout::Object(style, members));
    assert(crate::reader::text_member(value, "strategy"@) == Some(
        crate::framing::strategy_name(framing),
    ));
    assert("delimiter"@.len() == 9 && "fixed_width"@.len() == 11 && "length_prefixed"@.len() == 15
        && "custom"@.len() == 6);
    match framing {
        Framing::Delimiter(delimiter) => {
            law_hex_round_trip(delimiter);
            assert(framing_of(value) == Some(framing));
        },
        Framing::FixedWidth(record_bytes) => {
            lemma_number_value(record_bytes as nat, u64::MAX as nat);
            assert(framing_of(value) == Some(framing));
        },
        Framing::LengthPrefixed { prefix_bytes, .. } => {
            lemma_number_value(prefix_bytes as nat, u64::MAX as nat);
            lemma_field(style, members, 2);
            lemma_field(style, members, 3);
            assert(framing_of(value) == Some(framing));
        },
        Framing::Custom(name) => {
            assert(framing_of(value) == Some(framing));
        },
    }
}

/// Containers without containers inside go one level down.
proof fn lemma_flat(members: Seq<(Seq<char>, Layout)>, style: Style, levels: int)
    requires
        levels > 0,
        forall|i: int|
            0 <= i < members.len() ==> !((#[trigger] members[i]).1 is Array) && !(
            members[i].1 is Object),
    ensures
        nested_within(Layout::Object(style, members), levels),
{
    assert forall|i: int| 0 <= i < members.len() implies nested_within(
        (#[trigger] members[i]).1,
        levels - 1,
    ) by {}
}

/// The description of a source goes two levels down.
pub proof fn lemma_source_nested(path: Seq<char>, size: nat, identity: Identity, levels: int)
    requires
        levels >= 2,
    ensures
        nested_within(
            Layout::Object(Style::Block(2), source_members(path, size, identity)),
            levels,
        ),
{
    let members = source_members(path, size, identity);
    lemma_flat(identity_members(identity), Style::Block(4), levels - 1);
    assert forall|i: int| 0 <= i < members.len() implies nested_within(
        (#[trigger] members[i]).1,
        levels - 1,
    ) by {}
}

/// The description of a framing goes one level down.
pub proof fn lemma_framing_nested(framing: Framing, levels: int)
    requires
        levels >= 1,
    ensures
        nested_within(Layout::Object(Style::Block(2), framing_members(framing)), levels),
{
    lemma_flat(framing_members(framing), Style::Block(2), levels);
}

/// The name of the program goes one level down.
pub proof fn lemma_program_nested(levels: int)
    requires
        levels >= 1,
    ensures
        nested_within(Layout::Object(Style::Inline, program_members()), levels),
{
    lemma_flat(program_members(), Style::Inline, levels);
}

pub proof fn lemma_plan_nested(plan: Plan)
    ensures
        nested_within(plan_layout(plan), MAX_DEPTH as int),
{
    let levels = MAX_DEPTH - 1;
    let members = plan_members(plan);
    lemma_program_nested(levels);
    lemma_source_nested(plan.source_path, plan.source_size, plan.identity, levels);
    lemma_framing_nested(plan.framing, levels);
    let parts = partitioning_members(plan);
    if let Some(index) = plan.index {
        lemma_flat(index_ref_members(index), Style::Block(4), levels - 1);
    }
    assert forall|i: int| 0 <= i < parts.len() implies nested_within(
        (#[trigger] parts[i]).1,
        levels - 1,
    ) by {}
    let ranges = range_layouts(plan.ranges);
    assert forall|i: int| 0 <= i < ranges.len() implies nested_within(
        #[trigger] ranges[i],
        levels - 1,
    ) by {
        lemma_flat(range_members(i, plan.ranges[i]), Style::Inline, levels - 1);
    }
    assert forall|i: int| 0 <= i < members.len() implies nested_within(
        (#[trigger] members[i]).1,
        levels,
    ) by {}
}

/// The numbers of a plan fit the fields they are read into, its framing can be
/// used, and its ranges are such as the reader accepts.
pub open spec fn storable(plan: Plan) -> bool {
    &&& plan.source_size == plan.identity.size
    &&& identity_fits(plan.identity)
    &&& usable(plan.framing)
    &&& framing_fits(plan.framing)
    &&& plan.requested_partitions <= usize::MAX
    &&& plan.window_bytes matches Some(n) ==> n <= usize::MAX
    &&& plan.index matches Some(index) ==> index.stride <= u64::MAX && index.record_count
        <= u64::MAX
    &&& plan.ranges.len() <= MAX_MANIFEST_RANGES
    &&& forall|i: int|
        0 <= i < plan.ranges.len() ==> 0 <= (#[trigger] plan.ranges[i]).0 < plan.ranges[i].1
            <= plan.source_size && plan.ranges[i].1 <= usize::MAX
}

proof fn lemma_index_ref_round_trip(index: IndexRef)
    requires
        index.stride <= u64::MAX,
        index.record_count <= u64::MAX,
    ensures
        read_index_ref(
            layout_value(Layout::Object(Style::Block(4), index_ref_members(index))),
        ) == Ok::<Option<IndexRef>, Refusal>(Some(index)),
{
    let members = index_ref_members(index);
    lemma_index_ref_keys(index);
    lemma_object(Style::Block(4), members);
    lemma_field(Style::Block(4), members, 0);
    lemma_field(Style::Block(4), members, 1);
    lemma_field(Style::Block(4), members, 2);
    lemma_number_value(index.stride, u64::MAX as nat);
    lemma_number_value(index.record_count, u64::MAX as nat);
}

proof fn lemma_mode_round_trip(mode: SourceMode)
    ensures
        read_mode(layout_value(Layout::Text(mode.name()))) == Ok::<Option<SourceMode>, Refusal>(
            Some(mode),
        ),
{
    reveal_strlit("mmap");
    reveal_strlit("windowed");
    reveal_strlit("pread");
    assert("mmap"@.len() == 4 && "windowed"@.len() == 8 && "pread"@.len() == 5);
}

proof fn lemma_partitioning_round_trip(plan: Plan, doc: JsonValue)
    requires
        storable(plan),
        doc == layout_value(plan_layout(plan)),
    ensures
        read_partitioning(doc) == Ok::<
            (nat, Option<SourceMode>, Option<nat>, Option<IndexRef>),
            Refusal,
        >((plan.requested_partitions, plan.source_mode, plan.window_bytes, plan.index)),
{
    lemma_plan_keys(plan);
    lemma_field(Style::Block(0), plan_members(plan), 5);
    let members = partitioning_members(plan);
    lemma_partitioning_keys(plan);
    lemma_object(Style::Block(2), members);
    lemma_field(Style::Block(2), members, 1);
    lemma_field(Style::Block(2), members, 3);
    lemma_field(Style::Block(2), members, 4);
    lemma_field(Style::Block(2), members, 5);
    lemma_number_value(plan.requested_partitions, u64::MAX as nat);
    if let Some(mode) = plan.source_mode {
        lemma_mode_round_trip(mode);
    }
    if let Some(window) = plan.window_bytes {
        lemma_number_value(window, u64::MAX as nat);
    }
    if let Some(index) = plan.index {
        lemma_index_ref_round_trip(index);
    }
}

proof fn lemma_range_round_trip(i: int, range: (int, int), source_size: nat)
    requires
        0 <= i <= usize::MAX,
        0 <= range.0 < range.1 <= source_size,
        range.1 <= usize::MAX,
    ensures
        read_range(
            layout_value(Layout::Object(Style::Inline, range_members(i, range))),
            i,
            source_size,
        ) == Ok::<(int, int), Refusal>(range),
{
    let members = range_members(i, range);
    lemma_range_keys(i, range);
    lemma_object(Style::Inline, members);
    lemma_field(Style::Inline, members, 0);
    lemma_field(Style::Inline, members, 1);
    lemma_field(Style::Inline, members, 2);
    lemma_field(Style::Inline, members, 3);
    lemma_number_value(i as nat, u64::MAX as nat);
    lemma_number_value(range.0 as nat, u64::MAX as nat);
    lemma_number_value(range.1 as nat, u64::MAX as nat);
    lemma_number_value((range.1 - range.0) as nat, u64::MAX as nat);
}

proof fn lemma_entries_round_trip(entries: Seq<JsonValue>, plan: Plan, k: int)
    requires
        storable(plan),
        0 <= k <= plan.ranges.len(),
        entries.len() == plan.ranges.len(),
        forall|i: int|
            0 <= i < entries.len() ==> #[trigger] entries[i] == layout_value(
                Layout::Object(Style::Inline, range_members(i, plan.ranges[i])),
            ),
    ensures
        read_entries(entries, k, plan.source_size, plan.ranges.take(k)) == Ok::<
            Seq<(int, int)>,
            Refusal,
        >(plan.ranges),
    decreases plan.ranges.len() - k,
{
    if k == plan.ranges.len() {
        assert(plan.ranges.take(k) =~= plan.ranges);
    } else {
        lemma_range_round_trip(k, plan.ranges[k], plan.source_size);
        assert(plan.ranges.take(k).push(plan.ranges[k]) =~= plan.ranges.take(k + 1));
        lemma_entries_round_trip(entries, plan, k + 1);
    }
}

proof fn lemma_ranges_round_trip(plan: Plan, doc: JsonValue)
    requires
        storable(plan),
        doc == layout_value(plan_layout(plan)),
    ensures
        read_ranges(doc, plan.source_size) == Ok::<Seq<(int, int)>, Refusal>(plan.ranges),
{
    lemma_plan_keys(plan);
    lemma_field(Style::Block(0), plan_members(plan), 6);
    let layouts = range_layouts(plan.ranges);
    let value = layout_value(Layout::Array(Style::Block(2), layouts));
    let entries = value->Array_0;
    assert forall|i: int| 0 <= i < entries.len() implies #[trigger] entries[i] == layout_value(
        Layout::Object(Style::Inline, range_members(i, plan.ranges[i])),
    ) by {
        assert(entries[i] == layout_value(layouts[i]));
    }
    lemma_entries_round_trip(entries, plan, 0);
    assert(plan.ranges.take(0) =~= Seq::empty());
}

proof fn lemma_head_round_trip(plan: Plan, doc: JsonValue)
    requires
        storable(plan),
        doc == layout_value(plan_layout(plan)),
    ensures
        read_header(doc) == Ok::<(), Refusal>(()),
        read_source(doc) == Ok::<(Seq<char>, Identity), Refusal>(
            (plan.source_path, plan.identity),
        ),
        read_framing(doc) == Ok::<Framing, Refusal>(plan.framing),
{
    let members = plan_members(plan);
    lemma_plan_keys(plan);
    lemma_object(Style::Block(0), members);
    lemma_field(Style::Block(0), members, 0);
    lemma_field(Style::Block(0), members, 1);
    lemma_field(Style::Block(0), members, 3);
    lemma_field(Style::Block(0), members, 4);
    lemma_number_value(1, u64::MAX as nat);
    let source = source_members(plan.source_path, plan.source_size, plan.identity);
    lemma_source_keys(plan.source_path, plan.source_size, plan.identity);
    lemma_object(Style::Block(2), source);
    lemma_field(Style::Block(2), source, 0);
    lemma_field(Style::Block(2), source, 1);
    lemma_field(Style::Block(2), source, 2);
    lemma_number_value(plan.source_size, u64::MAX as nat);
    lemma_identity_keys(plan.identity);
    lemma_object(Style::Block(4), identity_members(plan.identity));
    law_identity_round_trip(Style::Block(2), plan.source_path, plan.identity);
    lemma_framing_keys(plan.framing);
    lemma_object(Style::Block(2), framing_members(plan.framing));
    law_framing_round_trip(Style::Block(2), plan.framing);
    if let Framing::Delimiter(delimiter) = plan.framing {
        lemma_field(Style::Block(2), framing_members(plan.framing), 2);
        lemma_number_value(delimiter.len(), u64::MAX as nat);
    }
}

/// Law: a plan that was written is read back as it was.
pub proof fn law_plan_round_trip(plan: Plan)
    requires
        storable(plan),
        encode_utf8(rendered(plan_layout(plan))).len() <= MAX_MANIFEST_BYTES,
    ensures
        read_plan(rendered(plan_layout(plan))) == Ok::<Plan, Refusal>(plan),
{
    lemma_plan_nested(plan);
    law_document_round_trip(plan_layout(plan));
    let doc = layout_value(plan_layout(plan));
    lemma_head_round_trip(plan, doc);
    lemma_partitioning_round_trip(plan, doc);
    lemma_ranges_round_trip(plan, doc);
}

/// The plan can be stored: its framing can be used, its ranges are not empty and
/// lie inside the source, and its size is that of its identity.
pub open spec fn can_be_stored(plan: RangePlan) -> bool {
    &&& plan.source_size == plan.identity.size
    &&& usable(plan.framing@)
    &&& plan.ranges@.len() <= MAX_MANIFEST_RANGES
    &&& forall|i: int|
        0 <= i < plan.ranges@.len() ==> (#[trigger] plan.ranges@[i]).0 < plan.ranges@[i].1
            <= plan.source_size
}

proof fn lemma_storable(plan: RangePlan)
    requires
        can_be_stored(plan),
    ensures
        storable(plan@),
{
    let p = plan@;
    assert(identity_fits(p.identity));
    assert(framing_fits(p.framing)) by {
        if let FramingDescriptor::Delimiter { delimiter } = plan.framing {
            assert(delimiter.len() == delimiter@.len());
        }
    }
    assert forall|i: int| 0 <= i < p.ranges.len() implies 0 <= (#[trigger] p.ranges[i]).0
        < p.ranges[i].1 <= p.source_size && p.ranges[i].1 <= usize::MAX by {
        assert(p.ranges[i] == (plan.ranges@[i].0 as int, plan.ranges@[i].1 as int));
    }
}

/// Law: a plan that can be stored is read back from its text as it was.
pub proof fn law_range_plan_round_trip(plan: RangePlan)
    requires
        can_be_stored(plan),
        encode_utf8(rendered(plan_layout(plan@))).len() <= MAX_MANIFEST_BYTES,
    ensures
        read_plan(rendered(plan_layout(plan@))) == Ok::<Plan, Refusal>(plan@),
{
    lemma_storable(plan);
    law_plan_round_trip(plan@);
}

/// Ranges that the reader accepted are not empty and lie inside the source.
proof fn lemma_entries_accepted(
    entries: Seq<JsonValue>,
    k: int,
    source_size: nat,
    acc: Seq<(int, int)>,
)
    requires
        0 <= k <= entries.len(),
        acc.len() == k,
        forall|i: int|
            0 <= i < acc.len() ==> 0 <= (#[trigger] acc[i]).0 < acc[i].1 <= source_size,
    ensures
        read_entries(entries, k, source_size, acc) matches Ok(ranges) ==> ranges.len()
            == entries.len() && forall|i: int|
            0 <= i < ranges.len() ==> 0 <= (#[trigger] ranges[i]).0 < ranges[i].1 <= source_size,
    decreases entries.len() - k,
{
    if k < entries.len() {
        if let Ok(range) = read_range(entries[k], k, source_size) {
            lemma_entries_accepted(entries, k + 1, source_size, acc.push(range));
        }
    }
}

/// Law: a plan that was read can be stored.
pub proof fn law_read_plan_can_be_stored(text: Seq<char>, plan: RangePlan)
    requires
        read_plan(text) == Ok::<Plan, Refusal>(plan@),
    ensures
        can_be_stored(plan),
{
    let doc = document(text)->Ok_0;
    assert(read_plan_value(doc) == Ok::<Plan, Refusal>(plan@));
    let ranges = read_ranges(doc, plan@.identity.size)->Ok_0;
    if let Ok(JsonValue::Array(entries)) = field(doc, "manifest"@, "ranges"@) {
        lemma_entries_accepted(entries, 0, plan@.identity.size, Seq::empty());
    }
    assert(plan@.ranges == ranges);
    assert forall|i: int| 0 <= i < plan.ranges@.len() implies (#[trigger] plan.ranges@[i]).0
        < plan.ranges@[i].1 <= plan.source_size by {
        assert(plan@.ranges[i] == (plan.ranges@[i].0 as int, plan.ranges@[i].1 as int));
    }
}

/// Law: writing down a plan that was read gives a text that is read as the same
/// plan, whatever form the first text had.
pub proof fn law_rewritten_plan_is_the_same(text: Seq<char>, plan: RangePlan)
    requires
        read_plan(text) == Ok::<Plan, Refusal>(plan@),
        encode_utf8(rendered(plan_layout(plan@))).len() <= MAX_MANIFEST_BYTES,
    ensures
        read_plan(rendered(plan_layout(plan@))) == read_plan(text),
{
    law_read_plan_can_be_stored(text, plan);
    law_range_plan_round_trip(plan);
}

proof fn lemma_starts_keys(index: Index)
    ensures
        keys_distinct(starts_members(index)),
{
    reveal_strlit("stride");
    reveal_strlit("record_count");
    reveal_strlit("record_offsets");
    let members = starts_members(index);
    assert forall|i: int, j: int| 0 <= i < j < members.len() implies (#[trigger] members[i]).0 != (
    #[trigger] members[j]).0 by {
        assert(members[i].0.len() != members[j].0.len());
    }
}

pub proof fn lemma_index_keys(index: Index)
    ensures
        keys_distinct(index_members(index)),
{
    reveal_strlit("schema");
    reveal_strlit("schema_version");
    reveal_strlit("generator");
    reveal_strlit("source");
    reveal_strlit("framing");
    reveal_strlit("index");
    let members = index_members(index);
    assert forall|i: int, j: int| 0 <= i < j < members.len() implies (#[trigger] members[i]).0 != (
    #[trigger] members[j]).0 by {
        assert(members[i].0.len() != members[j].0.len() || members[i].0[1] != members[j].0[1]);
    }
}

pub proof fn lemma_index_nested(index: Index)
    ensures
        nested_within(index_layout(index), MAX_DEPTH as int),
{
    let levels = MAX_DEPTH - 1;
    let members = index_members(index);
    lemma_program_nested(levels);
    lemma_source_nested(index.source_path, index.source_size, index.identity, levels);
    lemma_framing_nested(index.framing, levels);
    let starts = starts_members(index);
    let offsets = offset_layouts(index.offsets);
    assert forall|i: int| 0 <= i < offsets.len() implies nested_within(
        #[trigger] offsets[i],
        levels - 2,
    ) by {}
    assert forall|i: int| 0 <= i < starts.len() implies nested_within(
        (#[trigger] starts[i]).1,
        levels - 1,
    ) by {}
    assert forall|i: int| 0 <= i < members.len() implies nested_within(
        (#[trigger] members[i]).1,
        levels,
    ) by {}
}

/// The numbers of an index fit the fields they are read into, its framing is one
/// that can be read, and its record starts pass the reader's checks.
pub open spec fn index_storable(index: Index) -> bool {
    &&& index.source_size == index.identity.size
    &&& identity_fits(index.identity)
    &&& framing_fits(index.framing)
    &&& index.framing matches Framing::Delimiter(delimiter) ==> delimiter.len() > 0
    &&& index.framing matches Framing::FixedWidth(record_bytes) ==> record_bytes >= 0
    &&& index.framing matches Framing::LengthPrefixed { prefix_bytes, .. } ==> prefix_bytes >= 0
    &&& 0 < index.stride <= u64::MAX
    &&& index.record_count <= u64::MAX
    &&& forall|i: int|
        0 <= i < index.offsets.len() ==> #[trigger] index.offsets[i] <= u64::MAX
    &&& check_offsets(index.record_count, index.offsets, index.source_size) is Ok
}

proof fn lemma_offsets_round_trip(items: Seq<JsonValue>, offsets: Seq<nat>, k: int)
    requires
        0 <= k <= offsets.len(),
        items.len() == offsets.len(),
        forall|i: int| 0 <= i < offsets.len() ==> #[trigger] offsets[i] <= u64::MAX,
        forall|i: int|
            0 <= i < items.len() ==> #[trigger] items[i] == layout_value(
                Layout::Number(offsets[i]),
            ),
    ensures
        read_offsets(items, k, offsets.take(k)) == Ok::<Seq<nat>, Seq<char>>(offsets),
    decreases offsets.len() - k,
{
    if k == offsets.len() {
        assert(offsets.take(k) =~= offsets);
    } else {
        lemma_number_value(offsets[k], u64::MAX as nat);
        assert(offsets.take(k).push(offsets[k]) =~= offsets.take(k + 1));
        lemma_offsets_round_trip(items, offsets, k + 1);
    }
}

proof fn lemma_starts_round_trip(index: Index, doc: JsonValue)
    requires
        index_storable(index),
        doc == layout_value(index_layout(index)),
    ensures
        read_starts(doc, index.source_size) == Ok::<(nat, nat, Seq<nat>), Seq<char>>(
            (index.stride, index.record_count, index.offsets),
        ),
{
    lemma_index_keys(index);
    lemma_field(Style::Block(0), index_members(index), 5);
    let members = starts_members(index);
    lemma_starts_keys(index);
    lemma_field(Style::Block(2), members, 0);
    lemma_field(Style::Block(2), members, 1);
    lemma_field(Style::Block(2), members, 2);
    lemma_number_value(index.stride, u64::MAX as nat);
    lemma_number_value(index.record_count, u64::MAX as nat);
    let layouts = offset_layouts(index.offsets);
    let value = layout_value(Layout::Array(Style::Block(4), layouts));
    let items = value->Array_0;
    assert forall|i: int| 0 <= i < items.len() implies #[trigger] items[i] == layout_value(
        Layout::Number(index.offsets[i]),
    ) by {
        assert(items[i] == layout_value(layouts[i]));
    }
    lemma_offsets_round_trip(items, index.offsets, 0);
    assert(index.offsets.take(0) =~= Seq::empty());
}

/// Law: an index that was written is read back as it was.
pub proof fn law_index_round_trip(index: Index)
    requires
        index_storable(index),
    ensures
        read_index(rendered(index_layout(index))) == Ok::<Index, Seq<char>>(index),
{
    lemma_index_nested(index);
    law_document_round_trip(index_layout(index));
    let doc = layout_value(index_layout(index));
    let members = index_members(index);
    lemma_index_keys(index);
    lemma_field(Style::Block(0), members, 0);
    lemma_field(Style::Block(0), members, 1);
    lemma_field(Style::Block(0), members, 3);
    lemma_field(Style::Block(0), members, 4);
    lemma_number_value(1, u64::MAX as nat);
    let source = source_members(index.source_path, index.source_size, index.identity);
    lemma_source_keys(index.source_path, index.source_size, index.identity);
    lemma_field(Style::Block(2), source, 0);
    law_identity_round_trip(Style::Block(2), index.source_path, index.identity);
    law_framing_round_trip(Style::Block(2), index.framing);
    lemma_starts_round_trip(index, doc);
}

/// The index can be stored: its size is that of its identity, a delimiter has
/// bytes, and its record starts pass the reader's checks.
pub open spec fn index_can_be_stored(index: RecordIndex) -> bool {
    &&& index.source_size == index.identity.size
    &&& index.framing@ matches Framing::Delimiter(delimiter) ==> delimiter.len() > 0
    &&& index.stride > 0
    &&& check_offsets(index@.record_count, index@.offsets, index@.source_size) is Ok
}

proof fn lemma_index_storable(index: RecordIndex)
    requires
        index_can_be_stored(index),
    ensures
        index_storable(index@),
{
    assert(identity_fits(index@.identity));
    assert(framing_fits(index@.framing)) by {
        if let FramingDescriptor::Delimiter { delimiter } = index.framing {
            assert(delimiter.len() == delimiter@.len());
        }
    }
    assert forall|i: int| 0 <= i < index@.offsets.len() implies #[trigger] index@.offsets[i]
        <= u64::MAX by {
        assert(index@.offsets[i] == index.offsets@[i]);
    }
}

/// Law: an index that can be stored is read back from its text as it was.
pub proof fn law_record_index_round_trip(index: RecordIndex)
    requires
        index_can_be_stored(index),
    ensures
        read_index(rendered(index_layout(index@))) == Ok::<Index, Seq<char>>(index@),
{
    lemma_index_storable(index);
    law_index_round_trip(index@);
}

/// The stored ranges are the ranges a scan finds.
proof fn lemma_scan_entries(entries: Seq<JsonValue>, ranges: Seq<(int, int)>, k: int)
    requires
        0 <= k <= ranges.len() == entries.len(),
        forall|i: int|
            0 <= i < ranges.len() ==> 0 <= (#[trigger] ranges[i]).0 <= usize::MAX && 0
                <= ranges[i].1 <= usize::MAX,
        forall|i: int|
            0 <= i < entries.len() ==> #[trigger] entries[i] == layout_value(
                Layout::Object(Style::Inline, range_members(i, ranges[i])),
            ),
    ensures
        range_entries(entries, k) == Ok::<Seq<(int, int)>, Seq<char>>(ranges.take(k)),
    decreases k,
{
    if k > 0 {
        let i = k - 1;
        lemma_scan_entries(entries, ranges, i);
        let members = range_members(i, ranges[i]);
        lemma_range_keys(i, ranges[i]);
        lemma_field(Style::Inline, members, 1);
        lemma_field(Style::Inline, members, 2);
        lemma_number_value(ranges[i].0 as nat, u64::MAX as nat);
        lemma_number_value(ranges[i].1 as nat, u64::MAX as nat);
        assert(entries[i] == layout_value(Layout::Object(Style::Inline, members)));
        assert(range_entry(entries[i], i) == Ok::<(int, int), Seq<char>>(ranges[i]));
        assert(ranges.take(k) =~= ranges.take(i).push(ranges[i]));
    } else {
        assert(ranges.take(0) =~= Seq::empty());
    }
}

/// Law: an index that was read can be stored, and writing it down gives a text
/// that is read as the same index, whatever form the first text had.
pub proof fn law_rewritten_index_is_the_same(text: Seq<char>, index: RecordIndex)
    requires
        read_index(text) == Ok::<Index, Seq<char>>(index@),
    ensures
        index_can_be_stored(index),
        read_index(rendered(index_layout(index@))) == read_index(text),
{
    let doc = document(text)->Ok_0;
    assert(read_index_value(doc) == Ok::<Index, Seq<char>>(index@));
    law_record_index_round_trip(index);
}

/// Law: a stored plan whose records end in a delimiter can be scanned, with
/// the path, size, delimiter and ranges that were planned.
pub proof fn law_stored_plan_can_be_scanned(plan: RangePlan, delimiter: Seq<u8>)
    requires
        plan.framing@ == Framing::Delimiter(delimiter),
    ensures
        scan_plan(rendered(plan_layout(plan@))) == Ok::<ScanPlan, Seq<char>>(
            ScanPlan {
                source_path: plan.source_path@,
                source_size: plan.source_size as nat,
                delimiter_hex: hex_text(delimiter),
                ranges: int_ranges(plan.ranges@),
            },
        ),
{
    let p = plan@;
    let doc = layout_value(plan_layout(p));
    lemma_plan_nested(p);
    law_document_round_trip(plan_layout(p));
    let members = plan_members(p);
    lemma_plan_keys(p);
    lemma_field(Style::Block(0), members, 0);
    lemma_field(Style::Block(0), members, 3);
    lemma_field(Style::Block(0), members, 4);
    lemma_field(Style::Block(0), members, 6);
    let source = source_members(p.source_path, p.source_size, p.identity);
    lemma_source_keys(p.source_path, p.source_size, p.identity);
    lemma_field(Style::Block(2), source, 0);
    lemma_field(Style::Block(2), source, 1);
    lemma_number_value(p.source_size, u64::MAX as nat);
    lemma_framing_keys(p.framing);
    lemma_field(Style::Block(2), framing_members(p.framing), 1);
    let layouts = range_layouts(p.ranges);
    let entries = layout_value(Layout::Array(Style::Block(2), layouts))->Array_0;
    assert forall|i: int| 0 <= i < entries.len() implies #[trigger] entries[i] == layout_value(
        Layout::Object(Style::Inline, range_members(i, p.ranges[i])),
    ) by {
        assert(entries[i] == layout_value(layouts[i]));
    }
    assert forall|i: int| 0 <= i < p.ranges.len() implies 0 <= (#[trigger] p.ranges[i]).0
        <= usize::MAX && 0 <= p.ranges[i].1 <= usize::MAX by {
        assert(p.ranges[i] == (plan.ranges@[i].0 as int, plan.ranges@[i].1 as int));
    }
    lemma_scan_entries(entries, p.ranges, p.ranges.len() as int);
    assert(p.ranges.take(p.ranges.len() as int) =~= p.ranges);
    assert(scan_plan_of(doc) is Ok);
}

} // verus!
