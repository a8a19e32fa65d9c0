//! Reading range plans back from their text.
//!
//! The reader is strict: whatever it cannot make sense of is refused, with a
//! reason for programs and one for people. Members that it does not know are
//! passed over; a name that occurs twice in an object that it interprets is
//! refused.

use crate::framing::{usable, usable_error, Framing, FramingDescriptor};
use crate::identity::{opt_text, opt_u128, opt_u64, FileIdentity, Identity};
use crate::json::{
    document, fault_position, item_values, json_error_text, lookup, member_index, member_values,
    text_of_value, unsigned_of, Json, JsonValue,
};
use crate::manifest::{IndexRef, IndexReference, Plan, RangePlan, PLAN_SCHEMA, PLAN_SCHEMA_VERSION};
use crate::ranges::int_ranges;
use crate::source::SourceMode;
use crate::text::{dec_text, decode_hex, hex_bytes, push_decimal, same_text};
use vstd::prelude::*;
use vstd::utf8::encode_utf8;

verus! {

/// Largest accepted manifest, in bytes.
pub const MAX_MANIFEST_BYTES: usize = 64 * 1024 * 1024;

/// Most accepted ranges.
pub const MAX_MANIFEST_RANGES: usize = 1_000_000;

/// Why a manifest was refused.
#[derive(Clone, Copy, Debug, PartialEq, Eq, Structural)]
pub enum ManifestErrorKind {
    /// Longer than [`MAX_MANIFEST_BYTES`].
    TooLarge,
    /// Not a JSON document.
    InvalidJson,
    /// A JSON document, but not a plan.
    InvalidSchema,
    /// A plan of another schema version.
    UnsupportedVersion,
    /// More than [`MAX_MANIFEST_RANGES`] ranges.
    TooManyRanges,
}

impl ManifestErrorKind {
    /// The name used in logs and messages.
    pub open spec fn name(self) -> Seq<char> {
        match self {
            ManifestErrorKind::TooLarge => "too_large"@,
            ManifestErrorKind::InvalidJson => "invalid_json"@,
            ManifestErrorKind::InvalidSchema => "invalid_schema"@,
            ManifestErrorKind::UnsupportedVersion => "unsupported_version"@,
            ManifestErrorKind::TooManyRanges => "too_many_ranges"@,
        }
    }

    /// The name used in logs and messages.
    pub fn as_str(self) -> (r: &'static str)
        ensures
            r@ == self.name(),
    {
        match self {
            ManifestErrorKind::TooLarge => "too_large",
            ManifestErrorKind::InvalidJson => "invalid_json",
            ManifestErrorKind::InvalidSchema => "invalid_schema",
            ManifestErrorKind::UnsupportedVersion => "unsupported_version",
            ManifestErrorKind::TooManyRanges => "too_many_ranges",
        }
    }
}

/// A refusal, as mathematical data.
#[verifier::ext_equal]
pub struct Refusal {
    pub kind: ManifestErrorKind,
    pub detail: Seq<char>,
}

/// A refused manifest.
#[derive(Debug, Clone, PartialEq, Eq)]
pub struct ManifestError {
    /// The reason, for programs.
    pub kind: ManifestErrorKind,
    /// The reason, for people.
    pub detail: String,
}

impl View for ManifestError {
    type V = Refusal;

    open spec fn view(&self) -> Refusal {
        Refusal { kind: self.kind, detail: self.detail@ }
    }
}

impl ManifestError {
    /// The error as a text.
    pub fn to_string(&self) -> (r: String)
        ensures
            r@ == "invalid manifest ("@ + self.kind.name() + "): "@ + self.detail@,
    {
        let mut out = "invalid manifest (".to_owned();
        out.push_str(self.kind.as_str());
        out.push_str("): ");
        out.push_str(self.detail.as_str());
        out
    }
}

/// A document that is not a plan.
pub open spec fn not_a_plan<T>(detail: Seq<char>) -> Result<T, Refusal> {
    Err(Refusal { kind: ManifestErrorKind::InvalidSchema, detail })
}

/// An earlier member has the name of member `k`.
pub open spec fn named_before(members: Seq<(Seq<char>, JsonValue)>, k: int) -> bool {
    exists|j: int| 0 <= j < k && (#[trigger] members[j]).0 == members[k].0
}

/// The first member from `k` on whose name has occurred already.
pub open spec fn first_duplicate(members: Seq<(Seq<char>, JsonValue)>, k: int) -> Option<int>
    decreases members.len() - k,
{
    if k >= members.len() {
        None
    } else if named_before(members, k) {
        Some(k)
    } else {
        first_duplicate(members, k + 1)
    }
}

/// The value is an object without duplicate names.
pub open spec fn check_object(value: JsonValue, context: Seq<char>) -> Result<(), Refusal> {
    match value {
        JsonValue::Object(members) => match first_duplicate(members, 0) {
            Some(k) => not_a_plan(
                context + " has a duplicate key `"@ + members[k].0
                    + "`; ambiguous manifests are rejected"@,
            ),
            None => Ok(()),
        },
        _ => not_a_plan(context + " must be a JSON object"@),
    }
}

/// A required member.
pub open spec fn field(value: JsonValue, context: Seq<char>, key: Seq<char>) -> Result<
    JsonValue,
    Refusal,
> {
    match value {
        JsonValue::Object(members) => match member_index(members, key) {
            Some(i) => Ok(members[i].1),
            None => not_a_plan(context + " is missing required field `"@ + key + "`"@),
        },
        _ => not_a_plan(context + " must be a JSON object"@),
    }
}

/// A required unsigned number.
pub open spec fn number_field(value: JsonValue, context: Seq<char>, key: Seq<char>) -> Result<
    nat,
    Refusal,
> {
    match field(value, context, key) {
        Err(e) => Err(e),
        Ok(v) => match unsigned_of(v, u64::MAX as nat) {
            Some(n) => Ok(n),
            None => not_a_plan(context + " field `"@ + key + "` must be an unsigned integer"@),
        },
    }
}

/// A required size.
pub open spec fn size_field(value: JsonValue, context: Seq<char>, key: Seq<char>) -> Result<
    nat,
    Refusal,
> {
    match number_field(value, context, key) {
        Err(e) => Err(e),
        Ok(n) => if n > usize::MAX {
            not_a_plan(
                context + " field `"@ + key + "` value "@ + dec_text(n)
                    + " does not fit on this platform"@,
            )
        } else {
            Ok(n)
        },
    }
}

/// A required text.
pub open spec fn text_field(value: JsonValue, context: Seq<char>, key: Seq<char>) -> Result<
    Seq<char>,
    Refusal,
> {
    match field(value, context, key) {
        Err(e) => Err(e),
        Ok(v) => match text_of_value(v) {
            Some(text) => Ok(text),
            None => not_a_plan(context + " field `"@ + key + "` must be a JSON string"@),
        },
    }
}

/// A number that may be null.
pub open spec fn optional_number(value: Option<JsonValue>, max: nat) -> Option<Option<nat>> {
    match value {
        None => None,
        Some(JsonValue::Null) => Some(None),
        Some(v) => match unsigned_of(v, max) {
            Some(n) => Some(Some(n)),
            None => None,
        },
    }
}

/// A text that may be null.
pub open spec fn optional_text(value: Option<JsonValue>) -> Option<Option<Seq<char>>> {
    match value {
        None => None,
        Some(JsonValue::Null) => Some(None),
        Some(v) => match text_of_value(v) {
            Some(text) => Some(Some(text)),
            None => None,
        },
    }
}

/// A member that is an unsigned number.
pub open spec fn number_member(value: JsonValue, key: Seq<char>, max: nat) -> Option<nat> {
    match lookup(value, key) {
        Some(v) => unsigned_of(v, max),
        None => None,
    }
}

/// A member that is a text.
pub open spec fn text_member(value: JsonValue, key: Seq<char>) -> Option<Seq<char>> {
    match lookup(value, key) {
        Some(v) => text_of_value(v),
        None => None,
    }
}

/// A member that is a truth value.
pub open spec fn bool_member(value: JsonValue, key: Seq<char>) -> Option<bool> {
    match lookup(value, key) {
        Some(JsonValue::Bool(b)) => Some(b),
        _ => None,
    }
}

/// The identity that the description of a source holds.
pub open spec fn identity_of(source: JsonValue) -> Option<Identity> {
    match (number_member(source, "size"@, u64::MAX as nat), lookup(source, "identity"@)) {
        (Some(size), Some(v)) => match (
            optional_number(lookup(v, "modified_unix_nanos"@), u128::MAX as nat),
            optional_number(lookup(v, "device"@), u64::MAX as nat),
            optional_number(lookup(v, "inode"@), u64::MAX as nat),
            optional_text(lookup(v, "sample_fingerprint"@)),
            number_member(v, "sample_bytes"@, u64::MAX as nat),
        ) {
            (
                Some(modified_unix_nanos),
                Some(device),
                Some(inode),
                Some(sample_fingerprint),
                Some(sample_bytes),
            ) => if sample_bytes <= usize::MAX {
                Some(
                    Identity {
                        size,
                        modified_unix_nanos,
                        device,
                        inode,
                        sample_fingerprint,
                        sample_bytes,
                    },
                )
            } else {
                None
            },
            _ => None,
        },
        _ => None,
    }
}

/// The framing that a description holds.
pub open spec fn framing_of(value: JsonValue) -> Option<Framing> {
    match text_member(value, "strategy"@) {
        None => None,
        Some(strategy) => if strategy == "delimiter"@ {
            match text_member(value, "delimiter_hex"@) {
                None => None,
                Some(hex) => match hex_bytes(hex) {
                    Some(delimiter) => if delimiter.len() > 0 {
                        Some(Framing::Delimiter(delimiter))
                    } else {
                        None
                    },
                    None => None,
                },
            }
        } else if strategy == "fixed_width"@ {
            match number_member(value, "record_bytes"@, u64::MAX as nat) {
                Some(n) => if n <= usize::MAX {
                    Some(Framing::FixedWidth(n as int))
                } else {
                    None
                },
                None => None,
            }
        } else if strategy == "length_prefixed"@ {
            match (
                number_member(value, "prefix_bytes"@, u64::MAX as nat),
                bool_member(value, "little_endian"@),
                bool_member(value, "length_includes_prefix"@),
            ) {
                (Some(n), Some(little_endian), Some(length_includes_prefix)) => if n <= u8::MAX {
                    Some(
                        Framing::LengthPrefixed {
                            prefix_bytes: n as int,
                            little_endian,
                            length_includes_prefix,
                        },
                    )
                } else {
                    None
                },
                _ => None,
            }
        } else if strategy == "custom"@ {
            match text_member(value, "name"@) {
                Some(name) => Some(Framing::Custom(name)),
                None => None,
            }
        } else {
            None
        },
    }
}

/// The document says that it is a plan of this version.
pub open spec fn read_header(doc: JsonValue) -> Result<(), Refusal> {
    match check_object(doc, "manifest"@) {
        Err(e) => Err(e),
        Ok(_) => match text_field(doc, "manifest"@, "schema"@) {
            Err(e) => Err(e),
            Ok(schema) => if schema != PLAN_SCHEMA@ {
                not_a_plan(
                    "unsupported schema `"@ + schema + "` (expected `"@ + PLAN_SCHEMA@ + "`)"@,
                )
            } else {
                match number_field(doc, "manifest"@, "schema_version"@) {
                    Err(e) => Err(e),
                    Ok(version) => if version != 1 {
                        Err(
                            Refusal {
                                kind: ManifestErrorKind::UnsupportedVersion,
                                detail: "unsupported schema_version "@ + dec_text(version)
                                    + " (supported: 1)"@,
                            },
                        )
                    } else {
                        Ok(())
                    },
                }
            },
        },
    }
}

/// The path and the identity of the source.
pub open spec fn read_source(doc: JsonValue) -> Result<(Seq<char>, Identity), Refusal> {
    match field(doc, "manifest"@, "source"@) {
        Err(e) => Err(e),
        Ok(source) => match check_object(source, "source"@) {
            Err(e) => Err(e),
            Ok(_) => match text_field(source, "source"@, "path"@) {
                Err(e) => Err(e),
                Ok(path) => match number_field(source, "source"@, "size"@) {
                    Err(e) => Err(e),
                    Ok(_) => match field(source, "source"@, "identity"@) {
                        Err(e) => Err(e),
                        Ok(v) => match check_object(v, "source identity"@) {
                            Err(e) => Err(e),
                            Ok(_) => match identity_of(source) {
                                Some(identity) => Ok((path, identity)),
                                None => not_a_plan("source identity is malformed"@),
                            },
                        },
                    },
                },
            },
        },
    }
}

/// The framing of the plan.
pub open spec fn read_framing(doc: JsonValue) -> Result<Framing, Refusal> {
    match field(doc, "manifest"@, "framing"@) {
        Err(e) => Err(e),
        Ok(v) => match check_object(v, "framing"@) {
            Err(e) => Err(e),
            Ok(_) => match framing_of(v) {
                None => not_a_plan("framing descriptor is malformed"@),
                Some(framing) => match (framing, number_field(v, "framing"@, "delimiter_len"@)) {
                    (Framing::Delimiter(delimiter), Ok(len)) => if len != delimiter.len() {
                        not_a_plan(
                            "framing delimiter_len "@ + dec_text(len)
                                + " does not match decoded delimiter length "@ + dec_text(
                                delimiter.len(),
                            ),
                        )
                    } else {
                        Ok(framing)
                    },
                    _ => if usable(framing) {
                        Ok(framing)
                    } else {
                        not_a_plan(
                            "framing descriptor is not usable: "@ + usable_error(framing).text(),
                        )
                    },
                },
            },
        },
    }
}

/// How the bytes were reached.
pub open spec fn read_mode(value: JsonValue) -> Result<Option<SourceMode>, Refusal> {
    match value {
        JsonValue::Null => Ok(None),
        JsonValue::Text(name) => if name == "mmap"@ {
            Ok(Some(SourceMode::Mmap))
        } else if name == "windowed"@ {
            Ok(Some(SourceMode::Windowed))
        } else if name == "pread"@ {
            Ok(Some(SourceMode::Pread))
        } else {
            not_a_plan(
                "partitioning source_mode has unknown mode `"@ + name
                    + "` (expected mmap, windowed, pread, or null)"@,
            )
        },
        _ => not_a_plan("partitioning source_mode must be a string or null"@),
    }
}

/// The window of a moving mapping.
pub open spec fn read_window(value: JsonValue) -> Result<Option<nat>, Refusal> {
    match value {
        JsonValue::Null => Ok(None),
        _ => match unsigned_of(value, u64::MAX as nat) {
            Some(n) => if n <= usize::MAX {
                Ok(Some(n))
            } else {
                not_a_plan(
                    "partitioning field `window_bytes` must be an unsigned integer or null"@,
                )
            },
            None => not_a_plan(
                "partitioning field `window_bytes` must be an unsigned integer or null"@,
            ),
        },
    }
}

/// The index that the plan was made from.
pub open spec fn read_index_ref(value: JsonValue) -> Result<Option<IndexRef>, Refusal> {
    let context = "partitioning source_index"@;
    match value {
        JsonValue::Null => Ok(None),
        _ => match check_object(value, context) {
            Err(e) => Err(e),
            Ok(_) => match number_field(value, context, "stride"@) {
                Err(e) => Err(e),
                Ok(stride) => match number_field(value, context, "record_count"@) {
                    Err(e) => Err(e),
                    Ok(record_count) => match field(value, context, "path"@) {
                        Err(e) => Err(e),
                        Ok(v) => match optional_text(Some(v)) {
                            Some(path) => Ok(Some(IndexRef { stride, record_count, path })),
                            None => not_a_plan(
                                "partitioning source_index field `path` must be a string or null"@,
                            ),
                        },
                    },
                },
            },
        },
    }
}

/// How the plan was partitioned.
pub open spec fn read_partitioning(doc: JsonValue) -> Result<
    (nat, Option<SourceMode>, Option<nat>, Option<IndexRef>),
    Refusal,
> {
    let context = "partitioning"@;
    match field(doc, "manifest"@, "partitioning"@) {
        Err(e) => Err(e),
        Ok(v) => match check_object(v, context) {
            Err(e) => Err(e),
            Ok(_) => match size_field(v, context, "requested_partitions"@) {
                Err(e) => Err(e),
                Ok(requested) => match field(v, context, "source_mode"@) {
                    Err(e) => Err(e),
                    Ok(mode_value) => match read_mode(mode_value) {
                        Err(e) => Err(e),
                        Ok(mode) => match field(v, context, "window_bytes"@) {
                            Err(e) => Err(e),
                            Ok(window_value) => match read_window(window_value) {
                                Err(e) => Err(e),
                                Ok(window) => match field(v, context, "source_index"@) {
                                    Err(e) => Err(e),
                                    Ok(index_value) => match read_index_ref(index_value) {
                                        Err(e) => Err(e),
                                        Ok(index) => Ok((requested, mode, window, index)),
                                    },
                                },
                            },
                        },
                    },
                },
            },
        },
    }
}

/// Entry `position` of the range list, in a source of `source_size` bytes.
pub open spec fn read_range(entry: JsonValue, position: int, source_size: nat) -> Result<
    (int, int),
    Refusal,
> {
    let context = "range entry"@;
    let entry_name = "range entry "@ + dec_text(position as nat);
    match check_object(entry, context) {
        Err(e) => Err(e),
        Ok(_) => match size_field(entry, context, "index"@) {
            Err(e) => Err(e),
            Ok(index) => if index != position {
                not_a_plan(
                    entry_name + " carries index "@ + dec_text(index)
                        + "; manifest order is authoritative"@,
                )
            } else {
                match size_field(entry, context, "start"@) {
                    Err(e) => Err(e),
                    Ok(start) => match size_field(entry, context, "end"@) {
                        Err(e) => Err(e),
                        Ok(end) => match size_field(entry, context, "length"@) {
                            Err(e) => Err(e),
                            Ok(length) => if end < start {
                                not_a_plan(
                                    entry_name + " is inverted: start "@ + dec_text(start)
                                        + " >= end "@ + dec_text(end),
                                )
                            } else if end == start {
                                not_a_plan(entry_name + " is empty; ranges must cover bytes"@)
                            } else if length != end - start {
                                not_a_plan(
                                    entry_name + " declares length "@ + dec_text(length)
                                        + " but spans "@ + dec_text((end - start) as nat)
                                        + " bytes"@,
                                )
                            } else if end > source_size {
                                not_a_plan(
                                    entry_name + " ends at "@ + dec_text(end)
                                        + ", beyond source size "@ + dec_text(source_size),
                                )
                            } else {
                                Ok((start as int, end as int))
                            },
                        },
                    },
                }
            },
        },
    }
}

/// The entries of the range list from `k` on, behind those of `acc`.
pub open spec fn read_entries(
    entries: Seq<JsonValue>,
    k: int,
    source_size: nat,
    acc: Seq<(int, int)>,
) -> Result<Seq<(int, int)>, Refusal>
    decreases entries.len() - k,
{
    if k >= entries.len() {
        Ok(acc)
    } else {
        match read_range(entries[k], k, source_size) {
            Err(e) => Err(e),
            Ok(range) => read_entries(entries, k + 1, source_size, acc.push(range)),
        }
    }
}

/// The ranges of the plan.
pub open spec fn read_ranges(doc: JsonValue, source_size: nat) -> Result<Seq<(int, int)>, Refusal> {
    match field(doc, "manifest"@, "ranges"@) {
        Err(e) => Err(e),
        Ok(JsonValue::Array(entries)) => if entries.len() > MAX_MANIFEST_RANGES {
            Err(
                Refusal {
                    kind: ManifestErrorKind::TooManyRanges,
                    detail: "manifest has "@ + dec_text(entries.len()) + " ranges, limit is "@
                        + dec_text(MAX_MANIFEST_RANGES as nat),
                },
            )
        } else {
            read_entries(entries, 0, source_size, Seq::empty())
        },
        Ok(_) => not_a_plan("manifest field `ranges` must be a JSON array"@),
    }
}

/// The plan that a document holds.
pub open spec fn read_plan_value(doc: JsonValue) -> Result<Plan, Refusal> {
    match read_header(doc) {
        Err(e) => Err(e),
        Ok(_) => match read_source(doc) {
            Err(e) => Err(e),
            Ok((source_path, identity)) => match read_framing(doc) {
                Err(e) => Err(e),
                Ok(framing) => match read_partitioning(doc) {
                    Err(e) => Err(e),
                    Ok((requested_partitions, source_mode, window_bytes, index)) => match
                        read_ranges(doc, identity.size) {
                        Err(e) => Err(e),
                        Ok(ranges) => Ok(
                            Plan {
                                source_path,
                                source_size: identity.size,
                                identity,
                                framing,
                                requested_partitions,
                                source_mode,
                                window_bytes,
                                index,
                                ranges,
                            },
                        ),
                    },
                },
            },
        },
    }
}

/// The plan that a text holds.
pub open spec fn read_plan(text: Seq<char>) -> Result<Plan, Refusal> {
    if encode_utf8(text).len() > MAX_MANIFEST_BYTES {
        Err(
            Refusal {
                kind: ManifestErrorKind::TooLarge,
                detail: "manifest is "@ + dec_text(encode_utf8(text).len())
                    + " bytes, limit is "@ + dec_text(MAX_MANIFEST_BYTES as nat),
            },
        )
    } else {
        match document(text) {
            Err(fault) => Err(
                Refusal {
                    kind: ManifestErrorKind::InvalidJson,
                    detail: json_error_text(fault_position(text, fault), fault.message),
                },
            ),
            Ok(doc) => read_plan_value(doc),
        }
    }
}

/// A refusal of something that is not a plan.
fn schema_error(detail: String) -> (r: ManifestError)
    ensures
        r@ == (Refusal { kind: ManifestErrorKind::InvalidSchema, detail: detail@ }),
{
    ManifestError { kind: ManifestErrorKind::InvalidSchema, detail }
}

fn not_an_object(context: &str) -> (r: ManifestError)
    ensures
        not_a_plan::<()>(context@ + " must be a JSON object"@) == Err::<(), Refusal>(r@),
{
    let mut detail = context.to_owned();
    detail.push_str(" must be a JSON object");
    schema_error(detail)
}

/// ``context field `key` complaint``.
fn bad_field(context: &str, key: &str, complaint: &str) -> (r: ManifestError)
    ensures
        r@.kind == ManifestErrorKind::InvalidSchema,
        r@.detail == context@ + " field `"@ + key@ + complaint@,
{
    let mut detail = context.to_owned();
    detail.push_str(" field `");
    detail.push_str(key);
    detail.push_str(complaint);
    schema_error(detail)
}

fn is_named_before(members: &Vec<(String, Json)>, k: usize) -> (r: bool)
    requires
        k < members@.len(),
    ensures
        r == named_before(member_values(members@), k as int),
{
    let ghost values = member_values(members@);
    let mut j: usize = 0;
    while j < k
        invariant
            j <= k < members@.len(),
            values == member_values(members@),
            forall|i: int| 0 <= i < j ==> (#[trigger] values[i]).0 != values[k as int].0,
        decreases k - j,
    {
        proof {
            assert(values[j as int].0 == members@[j as int].0@);
            assert(values[k as int].0 == members@[k as int].0@);
        }
        if same_text(members[j].0.as_str(), members[k].0.as_str()) {
            return true;
        }
        j = j + 1;
    }
    false
}

/// The value must be an object without duplicate names.
fn manifest_members(value: &Json, context: &str) -> (r: Result<(), ManifestError>)
    ensures
        match r {
            Ok(_) => check_object(value@, context@) == Ok::<(), Refusal>(()),
            Err(e) => check_object(value@, context@) == Err::<(), Refusal>(e@),
        },
{
    match value {
        Json::Object(members) => {
            proof {
                crate::json::lemma_object_view(*members);
            }
            let ghost values = member_values(members@);
            let mut k: usize = 0;
            while k < members.len()
                invariant
                    k <= members@.len(),
                    values == member_values(members@),
                    value@ == JsonValue::Object(values),
                    first_duplicate(values, k as int) == first_duplicate(values, 0),
                decreases members@.len() - k,
            {
                if is_named_before(members, k) {
                    let mut detail = context.to_owned();
                    detail.push_str(" has a duplicate key `");
                    detail.push_str(members[k].0.as_str());
                    detail.push_str("`; ambiguous manifests are rejected");
                    proof {
                        assert(values[k as int].0 == members@[k as int].0@);
                    }
                    return Err(schema_error(detail));
                }
                k = k + 1;
            }
            Ok(())
        },
        _ => Err(not_an_object(context)),
    }
}

/// A required member.
fn manifest_field<'a>(value: &'a Json, context: &str, key: &str) -> (r: Result<
    &'a Json,
    ManifestError,
>)
    ensures
        match r {
            Ok(v) => field(value@, context@, key@) == Ok::<JsonValue, Refusal>(v@),
            Err(e) => field(value@, context@, key@) == Err::<JsonValue, Refusal>(e@),
        },
{
    match value {
        Json::Object(members) => {
            proof {
                crate::json::lemma_object_view(*members);
            }
        },
        _ => {
            return Err(not_an_object(context));
        },
    }
    match value.get(key) {
        Some(v) => Ok(v),
        None => {
            let mut detail = context.to_owned();
            detail.push_str(" is missing required field `");
            detail.push_str(key);
            detail.push_str("`");
            Err(schema_error(detail))
        },
    }
}

/// A required unsigned number.
fn manifest_u64(value: &Json, context: &str, key: &str) -> (r: Result<u64, ManifestError>)
    ensures
        match r {
            Ok(n) => number_field(value@, context@, key@) == Ok::<nat, Refusal>(n as nat),
            Err(e) => number_field(value@, context@, key@) == Err::<nat, Refusal>(e@),
        },
{
    match manifest_field(value, context, key) {
        Ok(v) => match v.as_u64() {
            Some(n) => Ok(n),
            None => {
                let error = bad_field(context, key, "` must be an unsigned integer");
                Err(error)
            },
        },
        Err(e) => Err(e),
    }
}

/// A required size.
fn manifest_usize(value: &Json, context: &str, key: &str) -> (r: Result<usize, ManifestError>)
    ensures
        match r {
            Ok(n) => size_field(value@, context@, key@) == Ok::<nat, Refusal>(n as nat),
            Err(e) => size_field(value@, context@, key@) == Err::<nat, Refusal>(e@),
        },
{
    match manifest_u64(value, context, key) {
        Ok(n) => {
            if n > usize::MAX as u64 {
                let mut detail = context.to_owned();
                detail.push_str(" field `");
                detail.push_str(key);
                detail.push_str("` value ");
                push_decimal(&mut detail, n as u128);
                detail.push_str(" does not fit on this platform");
                return Err(schema_error(detail));
            }
            Ok(n as usize)
        },
        Err(e) => Err(e),
    }
}

/// A required text.
fn manifest_string(value: &Json, context: &str, key: &str) -> (r: Result<String, ManifestError>)
    ensures
        match r {
            Ok(text) => text_field(value@, context@, key@) == Ok::<Seq<char>, Refusal>(text@),
            Err(e) => text_field(value@, context@, key@) == Err::<Seq<char>, Refusal>(e@),
        },
{
    match manifest_field(value, context, key) {
        Ok(v) => match v.as_str() {
            Some(text) => Ok(text.to_owned()),
            None => {
                let error = bad_field(context, key, "` must be a JSON string");
                Err(error)
            },
        },
        Err(e) => Err(e),
    }
}

fn optional_json_u128(value: Option<&Json>) -> (r: Option<Option<u128>>)
    ensures
        match r {
            Some(n) => optional_number(
                match value {
                    Some(v) => Some(v@),
                    None => None,
                },
                u128::MAX as nat,
            ) == Some(opt_u128(n)),
            None => optional_number(
                match value {
                    Some(v) => Some(v@),
                    None => None,
                },
                u128::MAX as nat,
            ) is None,
        },
{
    match value {
        None => None,
        Some(v) => match v {
            Json::Null => Some(None),
            _ => match v.as_u128() {
                Some(n) => Some(Some(n)),
                None => None,
            },
        },
    }
}

fn optional_json_u64(value: Option<&Json>) -> (r: Option<Option<u64>>)
    ensures
        match r {
            Some(n) => optional_number(
                match value {
                    Some(v) => Some(v@),
                    None => None,
                },
                u64::MAX as nat,
            ) == Some(opt_u64(n)),
            None => optional_number(
                match value {
                    Some(v) => Some(v@),
                    None => None,
                },
                u64::MAX as nat,
            ) is None,
        },
{
    match value {
        None => None,
        Some(v) => match v {
            Json::Null => Some(None),
            _ => match v.as_u64() {
                Some(n) => Some(Some(n)),
                None => None,
            },
        },
    }
}

fn optional_json_text(value: Option<&Json>) -> (r: Option<Option<String>>)
    ensures
        match r {
            Some(text) => optional_text(
                match value {
                    Some(v) => Some(v@),
                    None => None,
                },
            ) == Some(opt_text(text)),
            None => optional_text(
                match value {
                    Some(v) => Some(v@),
                    None => None,
                },
            ) is None,
        },
{
    match value {
        None => None,
        Some(v) => match v {
            Json::Null => Some(None),
            _ => match v.as_str() {
                Some(text) => Some(Some(text.to_owned())),
                None => None,
            },
        },
    }
}

fn u64_member(value: &Json, key: &str) -> (r: Option<u64>)
    ensures
        match r {
            Some(n) => number_member(value@, key@, u64::MAX as nat) == Some(n as nat),
            None => number_member(value@, key@, u64::MAX as nat) is None,
        },
{
    match value.get(key) {
        Some(v) => v.as_u64(),
        None => None,
    }
}

/// A member that is a text.
pub fn str_member<'a>(value: &'a Json, key: &str) -> (r: Option<&'a str>)
    ensures
        match r {
            Some(text) => text_member(value@, key@) == Some(text@),
            None => text_member(value@, key@) is None,
        },
{
    match value.get(key) {
        Some(v) => v.as_str(),
        None => None,
    }
}

fn truth_member(value: &Json, key: &str) -> (r: Option<bool>)
    ensures
        r == bool_member(value@, key@),
{
    match value.get(key) {
        Some(v) => v.as_bool(),
        None => None,
    }
}

/// Read the identity that the description of a source holds.
pub fn file_identity_from_json(source: &Json) -> (r: Option<FileIdentity>)
    ensures
        match r {
            Some(identity) => identity_of(source@) == Some(identity@),
            None => identity_of(source@) is None,
        },
{
    let size: u64 = match u64_member(source, "size") {
        Some(n) => n,
        None => {
            return None;
        },
    };
    let v = match source.get("identity") {
        Some(v) => v,
        None => {
            return None;
        },
    };
    let modified_unix_nanos = match optional_json_u128(v.get("modified_unix_nanos")) {
        Some(n) => n,
        None => {
            return None;
        },
    };
    let device = match optional_json_u64(v.get("device")) {
        Some(n) => n,
        None => {
            return None;
        },
    };
    let inode = match optional_json_u64(v.get("inode")) {
        Some(n) => n,
        None => {
            return None;
        },
    };
    let sample_fingerprint = match optional_json_text(v.get("sample_fingerprint")) {
        Some(text) => text,
        None => {
            return None;
        },
    };
    match u64_member(v, "sample_bytes") {
        Some(n) => {
            if n > usize::MAX as u64 {
                return None;
            }
            Some(
                FileIdentity {
                    size,
                    modified_unix_nanos,
                    device,
                    inode,
                    sample_fingerprint,
                    sample_bytes: n as usize,
                },
            )
        },
        None => None,
    }
}

/// Read the framing that a description holds.
pub fn framing_descriptor_from_json(value: &Json) -> (r: Option<FramingDescriptor>)
    ensures
        match r {
            Some(framing) => framing_of(value@) == Some(framing@),
            None => framing_of(value@) is None,
        },
{
    proof {
        reveal_strlit("delimiter");
        reveal_strlit("fixed_width");
        reveal_strlit("length_prefixed");
        reveal_strlit("custom");
    }
    let strategy = match str_member(value, "strategy") {
        Some(text) => text,
        None => {
            return None;
        },
    };
    if same_text(strategy, "delimiter") {
        match str_member(value, "delimiter_hex") {
            Some(hex) => match decode_hex(hex) {
                Some(delimiter) => {
                    if delimiter.is_empty() {
                        None
                    } else {
                        Some(FramingDescriptor::Delimiter { delimiter })
                    }
                },
                None => None,
            },
            None => None,
        }
    } else if same_text(strategy, "fixed_width") {
        match u64_member(value, "record_bytes") {
            Some(n) => {
                if n > usize::MAX as u64 {
                    None
                } else {
                    Some(FramingDescriptor::FixedWidth { record_bytes: n as usize })
                }
            },
            None => None,
        }
    } else if same_text(strategy, "length_prefixed") {
        match (
            u64_member(value, "prefix_bytes"),
            truth_member(value, "little_endian"),
            truth_member(value, "length_includes_prefix"),
        ) {
            (Some(n), Some(little_endian), Some(length_includes_prefix)) => {
                if n > 255 {
                    None
                } else {
                    Some(
                        FramingDescriptor::LengthPrefixed {
                            prefix_bytes: n as u8,
                            little_endian,
                            length_includes_prefix,
                        },
                    )
                }
            },
            _ => None,
        }
    } else if same_text(strategy, "custom") {
        match str_member(value, "name") {
            Some(name) => Some(FramingDescriptor::Custom { name: name.to_owned() }),
            None => None,
        }
    } else {
        None
    }
}

fn parse_header(doc: &Json) -> (r: Result<(), ManifestError>)
    ensures
        match r {
            Ok(_) => read_header(doc@) == Ok::<(), Refusal>(()),
            Err(e) => read_header(doc@) == Err::<(), Refusal>(e@),
        },
{
    if let Err(e) = manifest_members(doc, "manifest") {
        return Err(e);
    }
    let schema = match manifest_string(doc, "manifest", "schema") {
        Ok(schema) => schema,
        Err(e) => {
            return Err(e);
        },
    };
    if !same_text(schema.as_str(), PLAN_SCHEMA) {
        let mut detail = "unsupported schema `".to_owned();
        detail.push_str(schema.as_str());
        detail.push_str("` (expected `");
        detail.push_str(PLAN_SCHEMA);
        detail.push_str("`)");
        return Err(schema_error(detail));
    }
    let version: u64 = match manifest_u64(doc, "manifest", "schema_version") {
        Ok(version) => version,
        Err(e) => {
            return Err(e);
        },
    };
    if version != PLAN_SCHEMA_VERSION as u64 {
        let mut detail = "unsupported schema_version ".to_owned();
        push_decimal(&mut detail, version as u128);
        detail.push_str(" (supported: 1)");
        return Err(ManifestError { kind: ManifestErrorKind::UnsupportedVersion, detail });
    }
    Ok(())
}

fn parse_source(doc: &Json) -> (r: Result<(String, FileIdentity), ManifestError>)
    ensures
        match r {
            Ok((path, identity)) => read_source(doc@) == Ok::<(Seq<char>, Identity), Refusal>(
                (path@, identity@),
            ),
            Err(e) => read_source(doc@) == Err::<(Seq<char>, Identity), Refusal>(e@),
        },
{
    let source = match manifest_field(doc, "manifest", "source") {
        Ok(v) => v,
        Err(e) => {
            return Err(e);
        },
    };
    if let Err(e) = manifest_members(source, "source") {
        return Err(e);
    }
    let path = match manifest_string(source, "source", "path") {
        Ok(path) => path,
        Err(e) => {
            return Err(e);
        },
    };
    if let Err(e) = manifest_u64(source, "source", "size") {
        return Err(e);
    }
    let identity_value = match manifest_field(source, "source", "identity") {
        Ok(v) => v,
        Err(e) => {
            return Err(e);
        },
    };
    if let Err(e) = manifest_members(identity_value, "source identity") {
        return Err(e);
    }
    match file_identity_from_json(source) {
        Some(identity) => Ok((path, identity)),
        None => Err(schema_error("source identity is malformed".to_owned())),
    }
}

fn parse_framing(doc: &Json) -> (r: Result<FramingDescriptor, ManifestError>)
    ensures
        match r {
            Ok(framing) => read_framing(doc@) == Ok::<Framing, Refusal>(framing@),
            Err(e) => read_framing(doc@) == Err::<Framing, Refusal>(e@),
        },
{
    let value = match manifest_field(doc, "manifest", "framing") {
        Ok(v) => v,
        Err(e) => {
            return Err(e);
        },
    };
    if let Err(e) = manifest_members(value, "framing") {
        return Err(e);
    }
    let framing = match framing_descriptor_from_json(value) {
        Some(framing) => framing,
        None => {
            return Err(schema_error("framing descriptor is malformed".to_owned()));
        },
    };
    if let FramingDescriptor::Delimiter { delimiter } = &framing {
        if let Ok(len) = manifest_u64(value, "framing", "delimiter_len") {
            if len != delimiter.len() as u64 {
                let mut detail = "framing delimiter_len ".to_owned();
                push_decimal(&mut detail, len as u128);
                detail.push_str(" does not match decoded delimiter length ");
                push_decimal(&mut detail, delimiter.len() as u128);
                return Err(schema_error(detail));
            }
        }
    }
    if let Err(error) = framing.try_as_builtin() {
        let mut detail = "framing descriptor is not usable: ".to_owned();
        detail.push_str(error.message());
        return Err(schema_error(detail));
    }
    Ok(framing)
}

fn parse_source_mode(value: &Json) -> (r: Result<Option<SourceMode>, ManifestError>)
    ensures
        match r {
            Ok(mode) => read_mode(value@) == Ok::<Option<SourceMode>, Refusal>(mode),
            Err(e) => read_mode(value@) == Err::<Option<SourceMode>, Refusal>(e@),
        },
{
    match value {
        Json::Null => Ok(None),
        Json::String(name) => {
            if same_text(name.as_str(), "mmap") {
                Ok(Some(SourceMode::Mmap))
            } else if same_text(name.as_str(), "windowed") {
                Ok(Some(SourceMode::Windowed))
            } else if same_text(name.as_str(), "pread") {
                Ok(Some(SourceMode::Pread))
            } else {
                let mut detail = "partitioning source_mode has unknown mode `".to_owned();
                detail.push_str(name.as_str());
                detail.push_str("` (expected mmap, windowed, pread, or null)");
                Err(schema_error(detail))
            }
        },
        _ => Err(
            schema_error("partitioning source_mode must be a string or null".to_owned()),
        ),
    }
}

fn parse_window(value: &Json) -> (r: Result<Option<usize>, ManifestError>)
    ensures
        match r {
            Ok(window) => read_window(value@) == Ok::<Option<nat>, Refusal>(
                crate::manifest::opt_usize(window),
            ),
            Err(e) => read_window(value@) == Err::<Option<nat>, Refusal>(e@),
        },
{
    if let Json::Null = value {
        return Ok(None);
    }
    if let Some(n) = value.as_u64() {
        if n <= usize::MAX as u64 {
            return Ok(Some(n as usize));
        }
    }
    Err(
        schema_error(
            "partitioning field `window_bytes` must be an unsigned integer or null".to_owned(),
        ),
    )
}

fn parse_index_reference(value: &Json) -> (r: Result<Option<IndexReference>, ManifestError>)
    ensures
        match r {
            Ok(index) => read_index_ref(value@) == Ok::<Option<IndexRef>, Refusal>(
                match index {
                    Some(i) => Some(i@),
                    None => None,
                },
            ),
            Err(e) => read_index_ref(value@) == Err::<Option<IndexRef>, Refusal>(e@),
        },
{
    if let Json::Null = value {
        return Ok(None);
    }
    if let Err(e) = manifest_members(value, "partitioning source_index") {
        return Err(e);
    }
    let stride: u64 = match manifest_u64(value, "partitioning source_index", "stride") {
        Ok(n) => n,
        Err(e) => {
            return Err(e);
        },
    };
    let record_count: u64 = match manifest_u64(
        value,
        "partitioning source_index",
        "record_count",
    ) {
        Ok(n) => n,
        Err(e) => {
            return Err(e);
        },
    };
    let path_value = match manifest_field(value, "partitioning source_index", "path") {
        Ok(v) => v,
        Err(e) => {
            return Err(e);
        },
    };
    match optional_json_text(Some(path_value)) {
        Some(path) => Ok(Some(IndexReference { stride, record_count, path })),
        None => Err(
            schema_error(
                "partitioning source_index field `path` must be a string or null".to_owned(),
            ),
        ),
    }
}

/// How a plan was partitioned, as it is read.
struct Partitioning {
    requested: usize,
    mode: Option<SourceMode>,
    window: Option<usize>,
    index: Option<IndexReference>,
}

fn parse_partitioning(doc: &Json) -> (r: Result<Partitioning, ManifestError>)
    ensures
        match r {
            Ok(p) => read_partitioning(doc@) == Ok::<
                (nat, Option<SourceMode>, Option<nat>, Option<IndexRef>),
                Refusal,
            >(
                (
                    p.requested as nat,
                    p.mode,
                    crate::manifest::opt_usize(p.window),
                    match p.index {
                        Some(i) => Some(i@),
                        None => None,
                    },
                ),
            ),
            Err(e) => read_partitioning(doc@) == Err::<
                (nat, Option<SourceMode>, Option<nat>, Option<IndexRef>),
                Refusal,
            >(e@),
        },
{
    let value = match manifest_field(doc, "manifest", "partitioning") {
        Ok(v) => v,
        Err(e) => {
            return Err(e);
        },
    };
    if let Err(e) = manifest_members(value, "partitioning") {
        return Err(e);
    }
    let requested: usize = match manifest_usize(value, "partitioning", "requested_partitions") {
        Ok(n) => n,
        Err(e) => {
            return Err(e);
        },
    };
    let mode_value = match manifest_field(value, "partitioning", "source_mode") {
        Ok(v) => v,
        Err(e) => {
            return Err(e);
        },
    };
    let mode = match parse_source_mode(mode_value) {
        Ok(mode) => mode,
        Err(e) => {
            return Err(e);
        },
    };
    let window_value = match manifest_field(value, "partitioning", "window_bytes") {
        Ok(v) => v,
        Err(e) => {
            return Err(e);
        },
    };
    let window = match parse_window(window_value) {
        Ok(window) => window,
        Err(e) => {
            return Err(e);
        },
    };
    let index_value = match manifest_field(value, "partitioning", "source_index") {
        Ok(v) => v,
        Err(e) => {
            return Err(e);
        },
    };
    match parse_index_reference(index_value) {
        Ok(index) => Ok(Partitioning { requested, mode, window, index }),
        Err(e) => Err(e),
    }
}

/// ``range entry position``.
fn entry_name(position: usize) -> (r: String)
    ensures
        r@ == "range entry "@ + dec_text(position as nat),
{
    let mut name = "range entry ".to_owned();
    push_decimal(&mut name, position as u128);
    name
}

fn parse_range(entry: &Json, position: usize, source_size: u64) -> (r: Result<
    (usize, usize),
    ManifestError,
>)
    ensures
        match r {
            Ok(range) => read_range(entry@, position as int, source_size as nat) == Ok::<
                (int, int),
                Refusal,
            >((range.0 as int, range.1 as int)),
            Err(e) => read_range(entry@, position as int, source_size as nat) == Err::<
                (int, int),
                Refusal,
            >(e@),
        },
{
    if let Err(e) = manifest_members(entry, "range entry") {
        return Err(e);
    }
    let index: usize = match manifest_usize(entry, "range entry", "index") {
        Ok(n) => n,
        Err(e) => {
            return Err(e);
        },
    };
    if index != position {
        let mut detail = entry_name(position);
        detail.push_str(" carries index ");
        push_decimal(&mut detail, index as u128);
        detail.push_str("; manifest order is authoritative");
        return Err(schema_error(detail));
    }
    let start: usize = match manifest_usize(entry, "range entry", "start") {
        Ok(n) => n,
        Err(e) => {
            return Err(e);
        },
    };
    let end: usize = match manifest_usize(entry, "range entry", "end") {
        Ok(n) => n,
        Err(e) => {
            return Err(e);
        },
    };
    let length: usize = match manifest_usize(entry, "range entry", "length") {
        Ok(n) => n,
        Err(e) => {
            return Err(e);
        },
    };
    if end < start {
        let mut detail = entry_name(position);
        detail.push_str(" is inverted: start ");
        push_decimal(&mut detail, start as u128);
        detail.push_str(" >= end ");
        push_decimal(&mut detail, end as u128);
        return Err(schema_error(detail));
    }
    let span: usize = end - start;
    if span == 0 {
        let mut detail = entry_name(position);
        detail.push_str(" is empty; ranges must cover bytes");
        return Err(schema_error(detail));
    }
    if length != span {
        let mut detail = entry_name(position);
        detail.push_str(" declares length ");
        push_decimal(&mut detail, length as u128);
        detail.push_str(" but spans ");
        push_decimal(&mut detail, span as u128);
        detail.push_str(" bytes");
        return Err(schema_error(detail));
    }
    if end as u64 > source_size {
        let mut detail = entry_name(position);
        detail.push_str(" ends at ");
        push_decimal(&mut detail, end as u128);
        detail.push_str(", beyond source size ");
        push_decimal(&mut detail, source_size as u128);
        return Err(schema_error(detail));
    }
    Ok((start, end))
}

fn parse_ranges(doc: &Json, source_size: u64) -> (r: Result<Vec<(usize, usize)>, ManifestError>)
    ensures
        match r {
            Ok(ranges) => read_ranges(doc@, source_size as nat) == Ok::<
                Seq<(int, int)>,
                Refusal,
            >(int_ranges(ranges@)),
            Err(e) => read_ranges(doc@, source_size as nat) == Err::<Seq<(int, int)>, Refusal>(e@),
        },
{
    let value = match manifest_field(doc, "manifest", "ranges") {
        Ok(v) => v,
        Err(e) => {
            return Err(e);
        },
    };
    let entries = match value.as_array() {
        Some(entries) => entries,
        None => {
            return Err(schema_error("manifest field `ranges` must be a JSON array".to_owned()));
        },
    };
    let ghost values = item_values(entries@);
    if entries.len() > MAX_MANIFEST_RANGES {
        let mut detail = "manifest has ".to_owned();
        push_decimal(&mut detail, entries.len() as u128);
        detail.push_str(" ranges, limit is ");
        push_decimal(&mut detail, MAX_MANIFEST_RANGES as u128);
        return Err(ManifestError { kind: ManifestErrorKind::TooManyRanges, detail });
    }
    let mut ranges: Vec<(usize, usize)> = Vec::new();
    let mut k: usize = 0;
    let ghost whole = read_ranges(doc@, source_size as nat);
    proof {
        assert(int_ranges(ranges@) =~= Seq::empty());
    }
    while k < entries.len()
        invariant
            k <= entries@.len(),
            values == item_values(entries@),
            whole == read_ranges(doc@, source_size as nat),
            read_entries(values, k as int, source_size as nat, int_ranges(ranges@)) == whole,
        decreases entries@.len() - k,
    {
        proof {
            assert(values[k as int] == entries@[k as int]@);
        }
        match parse_range(&entries[k], k, source_size) {
            Ok(range) => {
                let ghost before = ranges@;
                ranges.push(range);
                proof {
                    assert(int_ranges(ranges@) =~= int_ranges(before).push(
                        (range.0 as int, range.1 as int),
                    ));
                }
            },
            Err(e) => {
                return Err(e);
            },
        }
        k = k + 1;
    }
    Ok(ranges)
}

impl RangePlan {
    /// Read a plan back from its [`to_json`](RangePlan::to_json) text, or from
    /// any text that holds the same document.
    pub fn from_json(text: &str) -> (r: Result<RangePlan, ManifestError>)
        ensures
            match r {
                Ok(plan) => read_plan(text@) == Ok::<Plan, Refusal>(plan@),
                Err(e) => read_plan(text@) == Err::<Plan, Refusal>(e@),
            },
    {
        let size: usize = text.as_bytes().len();
        if size > MAX_MANIFEST_BYTES {
            let mut detail = "manifest is ".to_owned();
            push_decimal(&mut detail, size as u128);
            detail.push_str(" bytes, limit is ");
            push_decimal(&mut detail, MAX_MANIFEST_BYTES as u128);
            return Err(ManifestError { kind: ManifestErrorKind::TooLarge, detail });
        }
        let doc = match Json::parse(text) {
            Ok(doc) => doc,
            Err(error) => {
                return Err(
                    ManifestError {
                        kind: ManifestErrorKind::InvalidJson,
                        detail: error.to_string(),
                    },
                );
            },
        };
        if let Err(e) = parse_header(&doc) {
            return Err(e);
        }
        let (source_path, identity) = match parse_source(&doc) {
            Ok(found) => found,
            Err(e) => {
                return Err(e);
            },
        };
        let framing = match parse_framing(&doc) {
            Ok(framing) => framing,
            Err(e) => {
                return Err(e);
            },
        };
        let partitioning = match parse_partitioning(&doc) {
            Ok(p) => p,
            Err(e) => {
                return Err(e);
            },
        };
        let ranges = match parse_ranges(&doc, identity.size) {
            Ok(ranges) => ranges,
            Err(e) => {
                return Err(e);
            },
        };
        Ok(
            RangePlan {
                source_path,
                source_size: identity.size,
                identity,
                framing,
                requested_partitions: partitioning.requested,
                source_mode: partitioning.mode,
                window_bytes: partitioning.window,
                index: partitioning.index,
                ranges,
            },
        )
    }
}

} // verus!
