//! What stored plans and indexes say, member by member, and what is asked of
//! them when they are read.

use crate::document::{layout_value, Layout, Style};
use crate::framing::{strategy_name, usable, Framing};
use crate::identity::Identity;
use crate::index::{index_layout, index_members, read_index, read_offsets, Index};
use crate::json::{document, lemma_member_index, lookup, unsigned_of, JsonValue};
use crate::manifest::{
    partitioning_members, plan_layout, plan_members, program_members, range_layouts, range_members,
    Plan,
};
use crate::reader::{
    check_object, field, first_duplicate, framing_of, identity_of, named_before, number_member,
    read_entries, read_framing, read_header, read_index_ref, read_mode, read_partitioning,
    read_plan, read_range, read_source, read_window, text_member, ManifestErrorKind, Refusal,
};
use crate::roundtrip::{
    keys_distinct, lemma_field, lemma_index_keys, lemma_partitioning_keys, lemma_plan_keys,
    lemma_range_keys,
};
use crate::scan::{range_entries, without_leading_slashes};
use crate::source::SourceMode;
use crate::text::{dec_text, hex_bytes};
use vstd::prelude::*;
use vstd::utf8::encode_utf8;

verus! {

proof fn lemma_program_keys()
    ensures
        keys_distinct(program_members()),
{
    reveal_strlit("name");
    reveal_strlit("version");
    let members = program_members();
    assert forall|i: int, j: int| 0 <= i < j < members.len() implies (#[trigger] members[i]).0 != (
    #[trigger] members[j]).0 by {
        assert("name"@.len() == 4 && "version"@.len() == 7);
    }
}

/// Law: a stored plan names its kind, its version and the program that made it,
/// and says how it was cut and into how many ranges.
pub proof fn law_stored_plan_describes_itself(plan: Plan)
    ensures
        ({
            let doc = layout_value(plan_layout(plan));
            let planner = lookup(doc, "planner"@)->0;
            let partitioning = lookup(doc, "partitioning"@)->0;
            &&& lookup(doc, "schema"@) == Some(JsonValue::Text("mmap-chunker-plan"@))
            &&& lookup(doc, "schema_version"@) == Some(JsonValue::Number(dec_text(1)))
            &&& lookup(planner, "name"@) == Some(JsonValue::Text("mmap-chunker-core"@))
            &&& lookup(planner, "version"@) == Some(JsonValue::Text("0.2.2"@))
            &&& lookup(partitioning, "strategy"@) == Some(
                JsonValue::Text(
                    if plan.index is Some {
                        "indexed_records"@
                    } else {
                        "bytes"@
                    },
                ),
            )
            &&& lookup(partitioning, "actual_partitions"@) == Some(
                JsonValue::Number(dec_text(plan.ranges.len())),
            )
        }),
{
    let members = plan_members(plan);
    lemma_plan_keys(plan);
    lemma_field(Style::Block(0), members, 0);
    lemma_field(Style::Block(0), members, 1);
    lemma_field(Style::Block(0), members, 2);
    lemma_field(Style::Block(0), members, 5);
    lemma_program_keys();
    lemma_field(Style::Inline, program_members(), 0);
    lemma_field(Style::Inline, program_members(), 1);
    lemma_partitioning_keys(plan);
    lemma_field(Style::Block(2), partitioning_members(plan), 0);
    lemma_field(Style::Block(2), partitioning_members(plan), 2);
}

/// Law: a stored plan lists its ranges in order, each with its position, its
/// start, its end and the number of its bytes.
pub proof fn law_stored_plan_lists_its_ranges(plan: Plan, i: int)
    requires
        0 <= i < plan.ranges.len(),
    ensures
        ({
            let doc = layout_value(plan_layout(plan));
            let (start, end) = plan.ranges[i];
            &&& lookup(doc, "ranges"@) matches Some(JsonValue::Array(items))
            &&& items.len() == plan.ranges.len()
            &&& lookup(items[i], "index"@) == Some(JsonValue::Number(dec_text(i as nat)))
            &&& lookup(items[i], "start"@) == Some(JsonValue::Number(dec_text(start as nat)))
            &&& lookup(items[i], "end"@) == Some(JsonValue::Number(dec_text(end as nat)))
            &&& lookup(items[i], "length"@) == Some(
                JsonValue::Number(dec_text((end - start) as nat)),
            )
        }),
{
    lemma_plan_keys(plan);
    lemma_field(Style::Block(0), plan_members(plan), 6);
    let members = range_members(i, plan.ranges[i]);
    lemma_range_keys(i, plan.ranges[i]);
    lemma_field(Style::Inline, members, 0);
    lemma_field(Style::Inline, members, 1);
    lemma_field(Style::Inline, members, 2);
    lemma_field(Style::Inline, members, 3);
    assert(range_layouts(plan.ranges)[i] == Layout::Object(Style::Inline, members));
}

/// Law: a stored index names its kind, its version and the program that made it.
pub proof fn law_stored_index_describes_itself(index: Index)
    ensures
        ({
            let doc = layout_value(index_layout(index));
            let generator = lookup(doc, "generator"@)->0;
            &&& lookup(doc, "schema"@) == Some(JsonValue::Text("mmap-chunker-index"@))
            &&& lookup(doc, "schema_version"@) == Some(JsonValue::Number(dec_text(1)))
            &&& lookup(generator, "name"@) == Some(JsonValue::Text("mmap-chunker-core"@))
            &&& lookup(generator, "version"@) == Some(JsonValue::Text("0.2.2"@))
        }),
{
    let members = index_members(index);
    lemma_index_keys(index);
    lemma_field(Style::Block(0), members, 0);
    lemma_field(Style::Block(0), members, 1);
    lemma_field(Style::Block(0), members, 2);
    lemma_program_keys();
    lemma_field(Style::Inline, program_members(), 0);
    lemma_field(Style::Inline, program_members(), 1);
}

/// Law: what is read as a plan says that it is one, of the one version there is,
/// in a text of at most 64 MiB and with at most a million ranges.
pub proof fn law_accepted_plan_is_marked(text: Seq<char>)
    requires
        read_plan(text) is Ok,
    ensures
        encode_utf8(text).len() <= 67108864,
        document(text) is Ok,
        text_member(document(text)->Ok_0, "schema"@) == Some("mmap-chunker-plan"@),
        number_member(document(text)->Ok_0, "schema_version"@, u64::MAX as nat) == Some(1nat),
        lookup(document(text)->Ok_0, "ranges"@) matches Some(JsonValue::Array(entries))
            && entries.len() <= 1000000 && entries.len() == read_plan(text)->Ok_0.ranges.len(),
{
    let doc = document(text)->Ok_0;
    let plan = read_plan(text)->Ok_0;
    if let Some(JsonValue::Array(entries)) = lookup(doc, "ranges"@) {
        law_entries_are_read_in_order(entries, plan.identity.size, plan.ranges, 0);
    }
}

/// Law: what is read as an index says that it is one, of the one version there
/// is.
pub proof fn law_accepted_index_is_marked(text: Seq<char>)
    requires
        read_index(text) is Ok,
    ensures
        document(text) is Ok,
        text_member(document(text)->Ok_0, "schema"@) == Some("mmap-chunker-index"@),
        number_member(document(text)->Ok_0, "schema_version"@, u64::MAX as nat) == Some(1nat),
        read_index(text)->Ok_0.stride > 0,
{
}

/// Law: a text that is too large is refused as such, before it is looked at; one
/// that is no document is refused as such; and a plan of another version is
/// refused for its version.
pub proof fn law_refused_plan_is_told_why(text: Seq<char>)
    ensures
        encode_utf8(text).len() > 67108864 <==> (read_plan(text) matches Err(e) && e.kind
            == ManifestErrorKind::TooLarge),
        encode_utf8(text).len() <= 67108864 && document(text) is Err <==> (read_plan(
            text,
        ) matches Err(e) && e.kind == ManifestErrorKind::InvalidJson),
        (read_plan(text) matches Err(e) && e.kind == ManifestErrorKind::UnsupportedVersion)
            ==> (document(text) matches Ok(doc) && text_member(doc, "schema"@) == Some(
            "mmap-chunker-plan"@,
        ) && (number_member(doc, "schema_version"@, u64::MAX as nat) matches Some(v) && v != 1)),
        (read_plan(text) matches Err(e) && e.kind == ManifestErrorKind::TooManyRanges) ==> (
        document(text) matches Ok(doc) && (lookup(doc, "ranges"@) matches Some(
            JsonValue::Array(entries),
        ) && entries.len() > 1000000)),
{
    if let Ok(doc) = document(text) {
        lemma_header_kind(doc);
        lemma_source_kind(doc);
        lemma_partitioning_kind(doc);
        if let Some(JsonValue::Array(entries)) = lookup(doc, "ranges"@) {
            if let Ok((_, identity)) = read_source(doc) {
                lemma_entries_kind(entries, 0, identity.size, Seq::empty());
            }
        }
    }
}

/// A refusal for what the document holds, not for its size, version or form.
spec fn for_schema<T>(r: Result<T, Refusal>) -> bool {
    r matches Err(e) ==> e.kind == ManifestErrorKind::InvalidSchema
}

proof fn lemma_header_kind(doc: JsonValue)
    ensures
        read_header(doc) matches Err(e) ==> e.kind == ManifestErrorKind::InvalidSchema || e.kind
            == ManifestErrorKind::UnsupportedVersion,
{
}

proof fn lemma_source_kind(doc: JsonValue)
    ensures
        for_schema(read_source(doc)),
        for_schema(read_framing(doc)),
{
}

proof fn lemma_partitioning_kind(doc: JsonValue)
    ensures
        for_schema(read_partitioning(doc)),
{
    if let Ok(v) = field(doc, "manifest"@, "partitioning"@) {
        if let Ok(m) = field(v, "partitioning"@, "source_mode"@) {
            assert(for_schema(read_mode(m)));
        }
        if let Ok(w) = field(v, "partitioning"@, "window_bytes"@) {
            assert(for_schema(read_window(w)));
        }
        if let Ok(x) = field(v, "partitioning"@, "source_index"@) {
            assert(for_schema(read_index_ref(x)));
        }
    }
}

proof fn lemma_entries_kind(
    entries: Seq<JsonValue>,
    k: int,
    source_size: nat,
    acc: Seq<(int, int)>,
)
    requires
        0 <= k,
    ensures
        for_schema(read_entries(entries, k, source_size, acc)),
    decreases entries.len() - k,
{
    if k < entries.len() {
        assert(for_schema(read_range(entries[k], k, source_size)));
        if let Ok(range) = read_range(entries[k], k, source_size) {
            lemma_entries_kind(entries, k + 1, source_size, acc.push(range));
        }
    }
}

/// No two members have the same name.
pub open spec fn names_differ(members: Seq<(Seq<char>, JsonValue)>) -> bool {
    forall|i: int, j: int|
        0 <= i < j < members.len() ==> (#[trigger] members[i]).0 != (#[trigger] members[j]).0
}

proof fn lemma_first_duplicate(members: Seq<(Seq<char>, JsonValue)>, k: int)
    requires
        0 <= k,
    ensures
        first_duplicate(members, k) is None <==> forall|j: int|
            k <= j < members.len() ==> !#[trigger] named_before(members, j),
    decreases members.len() - k,
{
    if k < members.len() {
        lemma_first_duplicate(members, k + 1);
    }
}

/// Law: an object is accepted exactly when no two of its members have the same
/// name, and nothing else is an object.
pub proof fn law_objects_name_members_once(value: JsonValue, context: Seq<char>)
    ensures
        check_object(value, context) is Ok <==> (value matches JsonValue::Object(members)
            && names_differ(members)),
{
    if let JsonValue::Object(members) = value {
        lemma_first_duplicate(members, 0);
        if names_differ(members) {
            assert forall|j: int| 0 <= j < members.len() implies !#[trigger] named_before(
                members,
                j,
            ) by {}
        } else {
            let (i, j) = choose|i: int, j: int|
                0 <= i < j < members.len() && (#[trigger] members[i]).0 == (
                #[trigger] members[j]).0;
            assert(named_before(members, j));
        }
    }
}

/// Law: an entry of the range list is accepted exactly when it is an object that
/// names no member twice, its position is where it stands, it is not empty, lies
/// inside the source, and has as many bytes as it says.
pub proof fn law_range_entries_accepted_exactly(
    entry: JsonValue,
    position: int,
    source_size: nat,
    start: int,
    end: int,
)
    requires
        0 <= position,
    ensures
        read_range(entry, position, source_size) == Ok::<(int, int), Refusal>((start, end)) <==> {
            let max = u64::MAX as nat;
            &&& entry matches JsonValue::Object(members) && names_differ(members)
            &&& number_member(entry, "index"@, max) == Some(position as nat)
            &&& number_member(entry, "start"@, max) == Some(start as nat)
            &&& number_member(entry, "end"@, max) == Some(end as nat)
            &&& number_member(entry, "length"@, max) == Some((end - start) as nat)
            &&& 0 <= start < end <= source_size
            &&& position <= usize::MAX && end <= usize::MAX
        },
{
    law_objects_name_members_once(entry, "range entry"@);
}

proof fn lemma_entries(
    entries: Seq<JsonValue>,
    k: int,
    source_size: nat,
    acc: Seq<(int, int)>,
    ranges: Seq<(int, int)>,
    i: int,
)
    requires
        0 <= k <= entries.len(),
        acc.len() == k,
        read_entries(entries, k, source_size, acc) == Ok::<Seq<(int, int)>, Refusal>(ranges),
    ensures
        ranges.len() == entries.len(),
        forall|j: int| 0 <= j < k ==> #[trigger] ranges[j] == acc[j],
        k <= i < entries.len() ==> read_range(entries[i], i, source_size) == Ok::<
            (int, int),
            Refusal,
        >(ranges[i]),
    decreases entries.len() - k,
{
    if k < entries.len() {
        let range = read_range(entries[k], k, source_size)->Ok_0;
        lemma_entries(entries, k + 1, source_size, acc.push(range), ranges, i);
        assert(ranges[k] == acc.push(range)[k]);
    }
}

/// Law: the ranges that are read are those of the entries, one for each and in
/// their order.
pub proof fn law_entries_are_read_in_order(
    entries: Seq<JsonValue>,
    source_size: nat,
    ranges: Seq<(int, int)>,
    i: int,
)
    requires
        read_entries(entries, 0, source_size, Seq::empty()) == Ok::<Seq<(int, int)>, Refusal>(
            ranges,
        ),
    ensures
        ranges.len() == entries.len(),
        0 <= i < entries.len() ==> read_range(entries[i], i, source_size) == Ok::<
            (int, int),
            Refusal,
        >(ranges[i]),
{
    lemma_entries(entries, 0, source_size, Seq::empty(), ranges, i);
}

/// Law: a framing that is read can be used, and a delimiter is as long as the
/// description says, where it says so.
pub proof fn law_read_framing_is_usable(doc: JsonValue, framing: Framing)
    requires
        read_framing(doc) == Ok::<Framing, Refusal>(framing),
    ensures
        usable(framing),
        lookup(doc, "framing"@) matches Some(value) && framing_of(value) == Some(framing),
        framing matches Framing::Delimiter(delimiter) ==> (number_member(
            lookup(doc, "framing"@)->0,
            "delimiter_len"@,
            u64::MAX as nat,
        ) matches Some(len) ==> len == delimiter.len()),
{
}

/// Law: a scan reads the ranges of a stored plan one for each entry and in their
/// order.
pub proof fn law_scan_reads_entries_in_order(
    entries: Seq<JsonValue>,
    k: int,
    ranges: Seq<(int, int)>,
    i: int,
)
    requires
        0 <= i < k,
        range_entries(entries, k) == Ok::<Seq<(int, int)>, Seq<char>>(ranges),
    ensures
        ranges.len() == k,
        number_member(entries[i], "start"@, u64::MAX as nat) == Some(ranges[i].0 as nat),
        number_member(entries[i], "end"@, u64::MAX as nat) == Some(ranges[i].1 as nat),
        0 <= ranges[i].0 && 0 <= ranges[i].1,
    decreases k,
{
    let front = range_entries(entries, k - 1)->Ok_0;
    if k > 1 {
        law_scan_reads_entries_in_order(
            entries,
            k - 1,
            front,
            if i < k - 1 {
                i
            } else {
                0
            },
        );
    } else {
        assert(front.len() == 0);
    }
}

/// Law: the location of a path is the path without the slashes and backslashes
/// in front of it: the first `k` characters where the next one is neither.
pub proof fn law_location_has_no_leading_slash(path: Seq<char>, k: int)
    requires
        0 <= k <= path.len(),
        forall|i: int| 0 <= i < k ==> #[trigger] path[i] == '/' || path[i] == '\\',
        k < path.len() ==> path[k] != '/' && path[k] != '\\',
    ensures
        without_leading_slashes(path) == path.subrange(k, path.len() as int),
    decreases k,
{
    if k > 0 {
        let rest = path.skip(1);
        assert(path[0] == '/' || path[0] == '\\');
        assert forall|i: int| 0 <= i < k - 1 implies #[trigger] rest[i] == '/' || rest[i]
            == '\\' by {
            assert(rest[i] == path[i + 1]);
        }
        law_location_has_no_leading_slash(rest, k - 1);
        assert(rest.subrange(k - 1, rest.len() as int) =~= path.subrange(k, path.len() as int));
    } else {
        assert(path.subrange(0, path.len() as int) =~= path);
    }
}

/// Law: a member is found by its name; of several with the same name the first
/// one is meant.
pub proof fn law_members_are_found_by_name(
    members: Seq<(Seq<char>, JsonValue)>,
    key: Seq<char>,
    at: int,
)
    requires
        0 <= at <= members.len(),
        forall|i: int| 0 <= i < at ==> (#[trigger] members[i]).0 != key,
        at < members.len() ==> members[at].0 == key,
    ensures
        lookup(JsonValue::Object(members), key) == if at < members.len() {
            Some(members[at].1)
        } else {
            None
        },
{
    lemma_member_index(members, key, at);
}

/// Law: a mode of reading is read by its name; none is meant by a null, and
/// everything else is refused.
pub proof fn law_modes_are_read_by_name(value: JsonValue)
    ensures
        read_mode(value) is Ok <==> {
            ||| value == JsonValue::Null
            ||| value == JsonValue::Text("mmap"@)
            ||| value == JsonValue::Text("windowed"@)
            ||| value == JsonValue::Text("pread"@)
        },
        read_mode(JsonValue::Null) == Ok::<Option<SourceMode>, Refusal>(None),
        read_mode(JsonValue::Text("mmap"@)) == Ok::<Option<SourceMode>, Refusal>(
            Some(SourceMode::Mmap),
        ),
        read_mode(JsonValue::Text("windowed"@)) == Ok::<Option<SourceMode>, Refusal>(
            Some(SourceMode::Windowed),
        ),
        read_mode(JsonValue::Text("pread"@)) == Ok::<Option<SourceMode>, Refusal>(
            Some(SourceMode::Pread),
        ),
{
    reveal_strlit("mmap");
    reveal_strlit("windowed");
    reveal_strlit("pread");
    assert("mmap"@.len() == 4 && "windowed"@.len() == 8 && "pread"@.len() == 5);
}

/// Law: a framing that is read has the strategy and the parameters that its
/// description gives.
pub proof fn law_framing_parameters_are_read(value: JsonValue, framing: Framing)
    requires
        framing_of(value) == Some(framing),
    ensures
        text_member(value, "strategy"@) == Some(strategy_name(framing)),
        match framing {
            Framing::Delimiter(delimiter) => delimiter.len() > 0 && (text_member(
                value,
                "delimiter_hex"@,
            ) matches Some(hex) && hex_bytes(hex) == Some(delimiter)),
            Framing::FixedWidth(record_bytes) => 0 <= record_bytes && number_member(
                value,
                "record_bytes"@,
                u64::MAX as nat,
            ) == Some(record_bytes as nat),
            Framing::LengthPrefixed { prefix_bytes, little_endian, length_includes_prefix } => {
                &&& 0 <= prefix_bytes <= 255
                &&& number_member(value, "prefix_bytes"@, u64::MAX as nat) == Some(
                    prefix_bytes as nat,
                )
                &&& lookup(value, "little_endian"@) == Some(JsonValue::Bool(little_endian))
                &&& lookup(value, "length_includes_prefix"@) == Some(
                    JsonValue::Bool(length_includes_prefix),
                )
            },
            Framing::Custom(name) => lookup(value, "name"@) == Some(JsonValue::Text(name)),
        },
{
}

/// A member that may be null holds what was read from it.
pub open spec fn holds_number(member: Option<JsonValue>, read: Option<nat>, max: nat) -> bool {
    match read {
        Some(n) => member matches Some(v) && unsigned_of(v, max) == Some(n),
        None => member == Some(JsonValue::Null),
    }
}

/// Law: an identity that is read has the size and the parts that its description
/// gives; a part that is null is not known.
pub proof fn law_identity_parts_are_read(source: JsonValue, identity: Identity)
    requires
        identity_of(source) == Some(identity),
    ensures
        number_member(source, "size"@, u64::MAX as nat) == Some(identity.size),
        lookup(source, "identity"@) matches Some(v) && {
            &&& holds_number(
                lookup(v, "modified_unix_nanos"@),
                identity.modified_unix_nanos,
                u128::MAX as nat,
            )
            &&& holds_number(lookup(v, "device"@), identity.device, u64::MAX as nat)
            &&& holds_number(lookup(v, "inode"@), identity.inode, u64::MAX as nat)
            &&& lookup(v, "sample_fingerprint"@) == Some(
                match identity.sample_fingerprint {
                    Some(text) => JsonValue::Text(text),
                    None => JsonValue::Null,
                },
            )
            &&& number_member(v, "sample_bytes"@, u64::MAX as nat) == Some(identity.sample_bytes)
        },
{
}

/// Law: the offsets of an index are read one for each item and in their order;
/// items that are no unsigned numbers are refused.
pub proof fn law_offsets_are_read_in_order(items: Seq<JsonValue>, i: int)
    ensures
        read_offsets(items, 0, Seq::empty()) matches Ok(offsets) ==> offsets.len() == items.len()
            && (0 <= i < items.len() ==> unsigned_of(items[i], u64::MAX as nat) == Some(
            offsets[i],
        )),
        0 <= i < items.len() && unsigned_of(items[i], u64::MAX as nat) is None ==> read_offsets(
            items,
            0,
            Seq::empty(),
        ) is Err,
{
    lemma_offsets_read(items, 0, Seq::empty(), i);
}

proof fn lemma_offsets_read(items: Seq<JsonValue>, k: int, acc: Seq<nat>, i: int)
    requires
        0 <= k <= items.len(),
        acc.len() == k,
    ensures
        read_offsets(items, k, acc) matches Ok(offsets) ==> {
            &&& offsets.len() == items.len()
            &&& forall|j: int| 0 <= j < k ==> #[trigger] offsets[j] == acc[j]
            &&& k <= i < items.len() ==> unsigned_of(items[i], u64::MAX as nat) == Some(offsets[i])
        },
        k <= i < items.len() && unsigned_of(items[i], u64::MAX as nat) is None ==> read_offsets(
            items,
            k,
            acc,
        ) is Err,
    decreases items.len() - k,
{
    if k < items.len() {
        if let Some(n) = unsigned_of(items[k], u64::MAX as nat) {
            lemma_offsets_read(items, k + 1, acc.push(n), i);
            if let Ok(offsets) = read_offsets(items, k, acc) {
                assert(offsets[k] == acc.push(n)[k]);
            }
        }
    }
}

} // verus!
