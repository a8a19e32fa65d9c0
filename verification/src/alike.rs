//! Which documents hold the same plan: what the reader of plans overlooks.

use crate::json::{document, lookup, JsonValue};
use crate::reader::{
    bool_member, check_object, field, first_duplicate, framing_of, identity_of, named_before,
    number_field, number_member, optional_number, optional_text, read_entries, read_framing,
    read_index_ref, read_partitioning, read_plan, read_plan_value, read_range, read_ranges,
    read_source, size_field, text_field, text_member, Refusal, MAX_MANIFEST_BYTES,
};
use crate::spacing::{law_respaced_documents_are_the_same, stripped};
use vstd::prelude::*;
use vstd::utf8::encode_utf8;

verus! {

/// The value is an object in which no name occurs twice.
pub open spec fn names_once(value: JsonValue) -> bool {
    value matches JsonValue::Object(members) && forall|i: int, j: int|
        0 <= i < j < members.len() ==> (#[trigger] members[i]).0 != (#[trigger] members[j]).0
}

/// Two values where a plan has a word or a number: the same, or both something
/// that it cannot have there.
pub open spec fn alike_leaf(a: JsonValue, b: JsonValue) -> bool {
    a == b || a is Array && b is Array || a is Object && b is Object
}

/// The members of this name are alike leaves, or both missing.
pub open spec fn alike_at(a: JsonValue, b: JsonValue, key: Seq<char>) -> bool {
    match (lookup(a, key), lookup(b, key)) {
        (Some(x), Some(y)) => alike_leaf(x, y),
        (None, None) => true,
        _ => false,
    }
}

/// Two identities that are read alike: what is not read of them, and the order
/// of their members, may differ.
pub open spec fn alike_identity(a: JsonValue, b: JsonValue) -> bool {
    a == b || a is Array && b is Array || {
        &&& names_once(a)
        &&& names_once(b)
        &&& alike_at(a, b, "modified_unix_nanos"@)
        &&& alike_at(a, b, "device"@)
        &&& alike_at(a, b, "inode"@)
        &&& alike_at(a, b, "sample_fingerprint"@)
        &&& alike_at(a, b, "sample_bytes"@)
    }
}

/// Two sources that are read alike.
pub open spec fn alike_source(a: JsonValue, b: JsonValue) -> bool {
    a == b || a is Array && b is Array || {
        &&& names_once(a)
        &&& names_once(b)
        &&& alike_at(a, b, "path"@)
        &&& alike_at(a, b, "size"@)
        &&& match (lookup(a, "identity"@), lookup(b, "identity"@)) {
            (Some(x), Some(y)) => alike_identity(x, y),
            (None, None) => true,
            _ => false,
        }
    }
}

/// Two framings that are read alike.
pub open spec fn alike_framing(a: JsonValue, b: JsonValue) -> bool {
    a == b || a is Array && b is Array || {
        &&& names_once(a)
        &&& names_once(b)
        &&& alike_at(a, b, "strategy"@)
        &&& alike_at(a, b, "delimiter_hex"@)
        &&& alike_at(a, b, "delimiter_len"@)
        &&& alike_at(a, b, "record_bytes"@)
        &&& alike_at(a, b, "prefix_bytes"@)
        &&& alike_at(a, b, "little_endian"@)
        &&& alike_at(a, b, "length_includes_prefix"@)
        &&& alike_at(a, b, "name"@)
    }
}

/// Two index references that are read alike.
pub open spec fn alike_index_ref(a: JsonValue, b: JsonValue) -> bool {
    a == b || a is Array && b is Array || {
        &&& names_once(a)
        &&& names_once(b)
        &&& alike_at(a, b, "stride"@)
        &&& alike_at(a, b, "record_count"@)
        &&& alike_at(a, b, "path"@)
    }
}

/// Two partitionings that are read alike. The members `strategy` and
/// `actual_partitions` are not read.
pub open spec fn alike_partitioning(a: JsonValue, b: JsonValue) -> bool {
    a == b || a is Array && b is Array || {
        &&& names_once(a)
        &&& names_once(b)
        &&& alike_at(a, b, "requested_partitions"@)
        &&& alike_at(a, b, "source_mode"@)
        &&& alike_at(a, b, "window_bytes"@)
        &&& match (lookup(a, "source_index"@), lookup(b, "source_index"@)) {
            (Some(x), Some(y)) => alike_index_ref(x, y),
            (None, None) => true,
            _ => false,
        }
    }
}

/// Two range entries that are read alike.
pub open spec fn alike_entry(a: JsonValue, b: JsonValue) -> bool {
    a == b || a is Array && b is Array || {
        &&& names_once(a)
        &&& names_once(b)
        &&& alike_at(a, b, "index"@)
        &&& alike_at(a, b, "start"@)
        &&& alike_at(a, b, "end"@)
        &&& alike_at(a, b, "length"@)
    }
}

/// Two range lists that are read alike.
pub open spec fn alike_ranges(a: JsonValue, b: JsonValue) -> bool {
    a == b || a is Object && b is Object || match (a, b) {
        (JsonValue::Array(x), JsonValue::Array(y)) => x.len() == y.len() && forall|i: int|
            0 <= i < x.len() ==> alike_entry(#[trigger] x[i], y[i]),
        _ => false,
    }
}

/// Two documents, without repeated names, that are read as the same plan: they
/// may differ in the order of members, in members that plans do not have, and
/// in `planner`, which is not read.
pub open spec fn alike(a: JsonValue, b: JsonValue) -> bool {
    &&& names_once(a)
    &&& names_once(b)
    &&& alike_at(a, b, "schema"@)
    &&& alike_at(a, b, "schema_version"@)
    &&& match (lookup(a, "source"@), lookup(b, "source"@)) {
        (Some(x), Some(y)) => alike_source(x, y),
        (None, None) => true,
        _ => false,
    }
    &&& match (lookup(a, "framing"@), lookup(b, "framing"@)) {
        (Some(x), Some(y)) => alike_framing(x, y),
        (None, None) => true,
        _ => false,
    }
    &&& match (lookup(a, "partitioning"@), lookup(b, "partitioning"@)) {
        (Some(x), Some(y)) => alike_partitioning(x, y),
        (None, None) => true,
        _ => false,
    }
    &&& match (lookup(a, "ranges"@), lookup(b, "ranges"@)) {
        (Some(x), Some(y)) => alike_ranges(x, y),
        (None, None) => true,
        _ => false,
    }
}

proof fn lemma_no_duplicates(members: Seq<(Seq<char>, JsonValue)>, k: int)
    requires
        0 <= k,
        names_once(JsonValue::Object(members)),
    ensures
        first_duplicate(members, k) is None,
    decreases members.len() - k,
{
    if k < members.len() {
        assert(!named_before(members, k)) by {
            let value = JsonValue::Object(members);
            assert(value->Object_0 == members);
            assert(forall|j: int| 0 <= j < k ==> (#[trigger] members[j]).0 != members[k].0);
        }
        lemma_no_duplicates(members, k + 1);
    }
}

/// An object without repeated names passes the reader's first check.
proof fn lemma_object_passes(value: JsonValue, context: Seq<char>)
    requires
        names_once(value),
    ensures
        check_object(value, context) == Ok::<(), Refusal>(()),
{
    lemma_no_duplicates(value->Object_0, 0);
}

/// Leaves that are alike read alike.
proof fn lemma_fields_alike(a: JsonValue, b: JsonValue, context: Seq<char>, key: Seq<char>)
    requires
        a is Object,
        b is Object,
        alike_at(a, b, key),
    ensures
        text_field(a, context, key) == text_field(b, context, key),
        number_field(a, context, key) == number_field(b, context, key),
        size_field(a, context, key) == size_field(b, context, key),
        text_member(a, key) == text_member(b, key),
        bool_member(a, key) == bool_member(b, key),
        forall|max: nat| #[trigger] number_member(a, key, max) == number_member(b, key, max),
        forall|max: nat| #[trigger]
            optional_number(lookup(a, key), max) == optional_number(lookup(b, key), max),
        optional_text(lookup(a, key)) == optional_text(lookup(b, key)),
        match (field(a, context, key), field(b, context, key)) {
            (Ok(x), Ok(y)) => alike_leaf(x, y),
            (Err(e), Err(f)) => e == f,
            _ => false,
        },
{
}

proof fn lemma_identity_alike(a: JsonValue, b: JsonValue)
    requires
        names_once(a),
        names_once(b),
        alike_source(a, b),
    ensures
        identity_of(a) == identity_of(b),
{
    if a != b {
        lemma_fields_alike(a, b, Seq::empty(), "size"@);
        if let (Some(x), Some(y)) = (lookup(a, "identity"@), lookup(b, "identity"@)) {
            if x is Object && y is Object && x != y {
                lemma_fields_alike(x, y, Seq::empty(), "modified_unix_nanos"@);
                lemma_fields_alike(x, y, Seq::empty(), "device"@);
                lemma_fields_alike(x, y, Seq::empty(), "inode"@);
                lemma_fields_alike(x, y, Seq::empty(), "sample_fingerprint"@);
                lemma_fields_alike(x, y, Seq::empty(), "sample_bytes"@);
            }
        }
    }
}

proof fn lemma_source_alike(a: JsonValue, b: JsonValue)
    requires
        alike(a, b),
    ensures
        read_source(a) == read_source(b),
{
    if let (Some(x), Some(y)) = (lookup(a, "source"@), lookup(b, "source"@)) {
        if x != y && x is Object {
            lemma_object_passes(x, "source"@);
            lemma_object_passes(y, "source"@);
            lemma_fields_alike(x, y, "source"@, "path"@);
            lemma_fields_alike(x, y, "source"@, "size"@);
            lemma_identity_alike(x, y);
            if let (Some(v), Some(w)) = (lookup(x, "identity"@), lookup(y, "identity"@)) {
                if v != w && v is Object {
                    lemma_object_passes(v, "source identity"@);
                    lemma_object_passes(w, "source identity"@);
                }
            }
        }
    }
}

proof fn lemma_framing_alike(a: JsonValue, b: JsonValue)
    requires
        alike(a, b),
    ensures
        read_framing(a) == read_framing(b),
{
    if let (Some(x), Some(y)) = (lookup(a, "framing"@), lookup(b, "framing"@)) {
        if x != y && x is Object {
            lemma_object_passes(x, "framing"@);
            lemma_object_passes(y, "framing"@);
            lemma_fields_alike(x, y, "framing"@, "strategy"@);
            lemma_fields_alike(x, y, "framing"@, "delimiter_hex"@);
            lemma_fields_alike(x, y, "framing"@, "delimiter_len"@);
            lemma_fields_alike(x, y, "framing"@, "record_bytes"@);
            lemma_fields_alike(x, y, "framing"@, "prefix_bytes"@);
            lemma_fields_alike(x, y, "framing"@, "little_endian"@);
            lemma_fields_alike(x, y, "framing"@, "length_includes_prefix"@);
            lemma_fields_alike(x, y, "framing"@, "name"@);
            assert(framing_of(x) == framing_of(y));
        }
    }
}

proof fn lemma_index_ref_alike(a: JsonValue, b: JsonValue)
    requires
        alike_index_ref(a, b),
    ensures
        read_index_ref(a) == read_index_ref(b),
{
    let context = "partitioning source_index"@;
    if a != b && a is Object {
        lemma_object_passes(a, context);
        lemma_object_passes(b, context);
        lemma_fields_alike(a, b, context, "stride"@);
        lemma_fields_alike(a, b, context, "record_count"@);
        lemma_fields_alike(a, b, context, "path"@);
    }
}

proof fn lemma_partitioning_alike(a: JsonValue, b: JsonValue)
    requires
        alike(a, b),
    ensures
        read_partitioning(a) == read_partitioning(b),
{
    let context = "partitioning"@;
    if let (Some(x), Some(y)) = (lookup(a, "partitioning"@), lookup(b, "partitioning"@)) {
        if x != y && x is Object {
            lemma_object_passes(x, context);
            lemma_object_passes(y, context);
            lemma_fields_alike(x, y, context, "requested_partitions"@);
            lemma_fields_alike(x, y, context, "source_mode"@);
            lemma_fields_alike(x, y, context, "window_bytes"@);
            if let (Some(v), Some(w)) = (lookup(x, "source_index"@), lookup(y, "source_index"@)) {
                lemma_index_ref_alike(v, w);
            }
        }
    }
}

proof fn lemma_entry_alike(a: JsonValue, b: JsonValue, position: int, source_size: nat)
    requires
        alike_entry(a, b),
    ensures
        read_range(a, position, source_size) == read_range(b, position, source_size),
{
    let context = "range entry"@;
    if a != b && a is Object {
        lemma_object_passes(a, context);
        lemma_object_passes(b, context);
        lemma_fields_alike(a, b, context, "index"@);
        lemma_fields_alike(a, b, context, "start"@);
        lemma_fields_alike(a, b, context, "end"@);
        lemma_fields_alike(a, b, context, "length"@);
    }
}

proof fn lemma_entries_alike(
    x: Seq<JsonValue>,
    y: Seq<JsonValue>,
    k: int,
    source_size: nat,
    acc: Seq<(int, int)>,
)
    requires
        0 <= k,
        x.len() == y.len(),
        forall|i: int| 0 <= i < x.len() ==> alike_entry(#[trigger] x[i], y[i]),
    ensures
        read_entries(x, k, source_size, acc) == read_entries(y, k, source_size, acc),
    decreases x.len() - k,
{
    if k < x.len() {
        lemma_entry_alike(x[k], y[k], k, source_size);
        if let Ok(range) = read_range(x[k], k, source_size) {
            lemma_entries_alike(x, y, k + 1, source_size, acc.push(range));
        }
    }
}

proof fn lemma_ranges_alike(a: JsonValue, b: JsonValue, source_size: nat)
    requires
        alike(a, b),
    ensures
        read_ranges(a, source_size) == read_ranges(b, source_size),
{
    if let (Some(x), Some(y)) = (lookup(a, "ranges"@), lookup(b, "ranges"@)) {
        if let (JsonValue::Array(v), JsonValue::Array(w)) = (x, y) {
            if x == y {
            } else {
                lemma_entries_alike(v, w, 0, source_size, Seq::empty());
            }
        }
    }
}

/// Law: documents that differ only in the order of their members, in members
/// that plans do not have, in `planner`, and in the `strategy` and the
/// `actual_partitions` of their partitioning give the same plan, or the same
/// refusal.
pub proof fn law_alike_values_hold_the_same_plan(a: JsonValue, b: JsonValue)
    requires
        alike(a, b),
    ensures
        read_plan_value(a) == read_plan_value(b),
{
    lemma_object_passes(a, "manifest"@);
    lemma_object_passes(b, "manifest"@);
    lemma_fields_alike(a, b, "manifest"@, "schema"@);
    lemma_fields_alike(a, b, "manifest"@, "schema_version"@);
    lemma_source_alike(a, b);
    lemma_framing_alike(a, b);
    lemma_partitioning_alike(a, b);
    if let Ok((path, identity)) = read_source(a) {
        lemma_ranges_alike(a, b, identity.size);
    }
}

/// Law: texts of an accepted size that hold such documents are read as the same
/// plan.
pub proof fn law_alike_texts_hold_the_same_plan(s: Seq<char>, t: Seq<char>)
    requires
        encode_utf8(s).len() <= MAX_MANIFEST_BYTES,
        encode_utf8(t).len() <= MAX_MANIFEST_BYTES,
        document(s) is Ok,
        document(t) is Ok,
        alike(document(s)->Ok_0, document(t)->Ok_0),
    ensures
        read_plan(s) == read_plan(t),
{
    law_alike_values_hold_the_same_plan(document(s)->Ok_0, document(t)->Ok_0);
}

/// Law: texts of an accepted size that differ only in white space between their
/// tokens are read as the same plan, or refused for the same reason.
pub proof fn law_respaced_texts_hold_the_same_plan(s: Seq<char>, t: Seq<char>)
    requires
        encode_utf8(s).len() <= MAX_MANIFEST_BYTES,
        encode_utf8(t).len() <= MAX_MANIFEST_BYTES,
        document(s) is Ok,
        document(t) is Ok,
        stripped(s, 0, false) == stripped(t, 0, false),
    ensures
        read_plan(s) == read_plan(t),
{
    law_respaced_documents_are_the_same(s, t);
}

} // verus!
