//! Range plans and how they are written down.
//!
//! A plan holds all that is needed to work on a set of record-aligned byte
//! ranges independently: which file, which framing, how it was partitioned,
//! and the ranges. Its text is a JSON document of a fixed layout.

use crate::document::{
    doc_items, doc_members, lemma_doc_array, lemma_doc_object, rendered, Doc, Layout, Style,
};
use crate::error::SourceError;
use crate::framing::{Framing, FramingDescriptor};
use crate::identity::{opt_text, FileIdentity, Identity};
use crate::ranges::int_ranges;
use crate::source::SourceMode;
use crate::text::{hex_text, push_hex};
use vstd::prelude::*;
use vstd::utf8::encode_utf8;

verus! {

/// Name of the plan schema.
pub const PLAN_SCHEMA: &'static str = "mmap-chunker-plan";

/// Version of the plan schema.
pub const PLAN_SCHEMA_VERSION: u32 = 1;

/// Name of the program that writes plans and indexes.
pub const PLANNER_NAME: &'static str = "mmap-chunker-core";

/// Version of the program that writes plans and indexes.
pub const PLANNER_VERSION: &'static str = "0.2.2";

/// The sparse index that a plan was derived from.
#[derive(Debug, Clone, PartialEq, Eq)]
pub struct IndexReference {
    /// Every `stride`-th record start is in the index.
    pub stride: u64,
    /// Number of records that were counted.
    pub record_count: u64,
    /// Where the index is stored.
    pub path: Option<String>,
}

/// An index reference, as mathematical data.
#[verifier::ext_equal]
pub struct IndexRef {
    pub stride: nat,
    pub record_count: nat,
    pub path: Option<Seq<char>>,
}

impl View for IndexReference {
    type V = IndexRef;

    open spec fn view(&self) -> IndexRef {
        IndexRef {
            stride: self.stride as nat,
            record_count: self.record_count as nat,
            path: opt_text(self.path),
        }
    }
}

/// A complete plan for one file.
#[derive(Debug, Clone, PartialEq, Eq)]
pub struct RangePlan {
    /// Where the file was when it was planned.
    pub source_path: String,
    /// Size of the file in bytes.
    pub source_size: u64,
    /// Identity of the file, before planning and after it.
    pub identity: FileIdentity,
    /// What a record is.
    pub framing: FramingDescriptor,
    /// Number of ranges that were asked for.
    pub requested_partitions: usize,
    /// How the bytes were reached; `None` for a plan made from an index.
    pub source_mode: Option<SourceMode>,
    /// The window, where a moving one was used.
    pub window_bytes: Option<usize>,
    /// The index that the plan was made from, if one was.
    pub index: Option<IndexReference>,
    /// The ranges, from start up to and without end.
    pub ranges: Vec<(usize, usize)>,
}

/// A plan, as mathematical data.
#[verifier::ext_equal]
pub struct Plan {
    pub source_path: Seq<char>,
    pub source_size: nat,
    pub identity: Identity,
    pub framing: Framing,
    pub requested_partitions: nat,
    pub source_mode: Option<SourceMode>,
    pub window_bytes: Option<nat>,
    pub index: Option<IndexRef>,
    pub ranges: Seq<(int, int)>,
}

/// An optional size, as mathematical data.
pub open spec fn opt_usize(value: Option<usize>) -> Option<nat> {
    match value {
        Some(v) => Some(v as nat),
        None => None,
    }
}

impl View for RangePlan {
    type V = Plan;

    open spec fn view(&self) -> Plan {
        Plan {
            source_path: self.source_path@,
            source_size: self.source_size as nat,
            identity: self.identity@,
            framing: self.framing@,
            requested_partitions: self.requested_partitions as nat,
            source_mode: self.source_mode,
            window_bytes: opt_usize(self.window_bytes),
            index: match self.index {
                Some(index) => Some(index@),
                None => None,
            },
            ranges: int_ranges(self.ranges@),
        }
    }
}

/// An optional number in a document.
pub open spec fn number_layout(value: Option<nat>) -> Layout {
    match value {
        Some(n) => Layout::Number(n),
        None => Layout::Null,
    }
}

/// An optional text in a document.
pub open spec fn text_layout(value: Option<Seq<char>>) -> Layout {
    match value {
        Some(s) => Layout::Text(s),
        None => Layout::Null,
    }
}

/// The members of an identity.
pub open spec fn identity_members(identity: Identity) -> Seq<(Seq<char>, Layout)> {
    seq![
        ("modified_unix_nanos"@, number_layout(identity.modified_unix_nanos)),
        ("device"@, number_layout(identity.device)),
        ("inode"@, number_layout(identity.inode)),
        ("sample_fingerprint"@, text_layout(identity.sample_fingerprint)),
        ("sample_bytes"@, Layout::Number(identity.sample_bytes)),
    ]
}

/// The members that describe a source.
pub open spec fn source_members(path: Seq<char>, size: nat, identity: Identity) -> Seq<
    (Seq<char>, Layout),
> {
    seq![
        ("path"@, Layout::Text(path)),
        ("size"@, Layout::Number(size)),
        ("identity"@, Layout::Object(Style::Block(4), identity_members(identity))),
    ]
}

/// The members of a framing.
pub open spec fn framing_members(framing: Framing) -> Seq<(Seq<char>, Layout)> {
    match framing {
        Framing::Delimiter(delimiter) => seq![
            ("strategy"@, Layout::Text("delimiter"@)),
            ("delimiter_hex"@, Layout::Text(hex_text(delimiter))),
            ("delimiter_len"@, Layout::Number(delimiter.len())),
        ],
        Framing::FixedWidth(record_bytes) => seq![
            ("strategy"@, Layout::Text("fixed_width"@)),
            ("record_bytes"@, Layout::Number(record_bytes as nat)),
        ],
        Framing::LengthPrefixed { prefix_bytes, little_endian, length_includes_prefix } => seq![
            ("strategy"@, Layout::Text("length_prefixed"@)),
            ("prefix_bytes"@, Layout::Number(prefix_bytes as nat)),
            ("little_endian"@, Layout::Bool(little_endian)),
            ("length_includes_prefix"@, Layout::Bool(length_includes_prefix)),
        ],
        Framing::Custom(name) => seq![
            ("strategy"@, Layout::Text("custom"@)),
            ("name"@, Layout::Text(name)),
        ],
    }
}

/// The members that name the program.
pub open spec fn program_members() -> Seq<(Seq<char>, Layout)> {
    seq![
        ("name"@, Layout::Text(PLANNER_NAME@)),
        ("version"@, Layout::Text(PLANNER_VERSION@)),
    ]
}

/// The members of an index reference.
pub open spec fn index_ref_members(index: IndexRef) -> Seq<(Seq<char>, Layout)> {
    seq![
        ("path"@, text_layout(index.path)),
        ("stride"@, Layout::Number(index.stride)),
        ("record_count"@, Layout::Number(index.record_count)),
    ]
}

/// The members that say how a plan was partitioned.
pub open spec fn partitioning_members(plan: Plan) -> Seq<(Seq<char>, Layout)> {
    seq![
        (
            "strategy"@,
            Layout::Text(
                if plan.index is Some {
                    "indexed_records"@
                } else {
                    "bytes"@
                },
            ),
        ),
        ("requested_partitions"@, Layout::Number(plan.requested_partitions)),
        ("actual_partitions"@, Layout::Number(plan.ranges.len())),
        (
            "source_mode"@,
            match plan.source_mode {
                Some(mode) => Layout::Text(mode.name()),
                None => Layout::Null,
            },
        ),
        ("window_bytes"@, number_layout(plan.window_bytes)),
        (
            "source_index"@,
            match plan.index {
                Some(index) => Layout::Object(Style::Block(4), index_ref_members(index)),
                None => Layout::Null,
            },
        ),
    ]
}

/// The members of range `i`.
pub open spec fn range_members(i: int, range: (int, int)) -> Seq<(Seq<char>, Layout)> {
    let length = range.1 - range.0;
    seq![
        ("index"@, Layout::Number(i as nat)),
        ("start"@, Layout::Number(range.0 as nat)),
        ("end"@, Layout::Number(range.1 as nat)),
        ("length"@, Layout::Number(length as nat)),
    ]
}

/// The entries of the range list.
pub open spec fn range_layouts(ranges: Seq<(int, int)>) -> Seq<Layout> {
    Seq::new(
        ranges.len(),
        |i: int| Layout::Object(Style::Inline, range_members(i, ranges[i])),
    )
}

/// The members of a plan.
pub open spec fn plan_members(plan: Plan) -> Seq<(Seq<char>, Layout)> {
    seq![
        ("schema"@, Layout::Text(PLAN_SCHEMA@)),
        ("schema_version"@, Layout::Number(1)),
        ("planner"@, Layout::Object(Style::Inline, program_members())),
        (
            "source"@,
            Layout::Object(
                Style::Block(2),
                source_members(plan.source_path, plan.source_size, plan.identity),
            ),
        ),
        ("framing"@, Layout::Object(Style::Block(2), framing_members(plan.framing))),
        ("partitioning"@, Layout::Object(Style::Block(2), partitioning_members(plan))),
        ("ranges"@, Layout::Array(Style::Block(2), range_layouts(plan.ranges))),
    ]
}

/// A plan as a document.
pub open spec fn plan_layout(plan: Plan) -> Layout {
    Layout::Object(Style::Block(0), plan_members(plan))
}

/// A named document.
pub fn named(name: &str, doc: Doc) -> (r: (String, Doc))
    ensures
        r.0@ == name@,
        r.1@ == doc@,
{
    (name.to_owned(), doc)
}

/// A text document.
pub fn text_doc(text: &str) -> (r: Doc)
    ensures
        r@ == Layout::Text(text@),
{
    Doc::Text(text.to_owned())
}

/// An object document.
pub fn object_doc(style: Style, members: Vec<(String, Doc)>) -> (r: Doc)
    ensures
        r@ == Layout::Object(style, doc_members(members@)),
{
    proof {
        lemma_doc_object(style, members);
    }
    Doc::Object(style, members)
}

/// An array document.
pub fn array_doc(style: Style, items: Vec<Doc>) -> (r: Doc)
    ensures
        r@ == Layout::Array(style, doc_items(items@)),
{
    proof {
        lemma_doc_array(style, items);
    }
    Doc::Array(style, items)
}

fn optional_number_doc(value: Option<u128>) -> (r: Doc)
    ensures
        r@ == number_layout(crate::identity::opt_u128(value)),
{
    match value {
        Some(n) => Doc::Number(n),
        None => Doc::Null,
    }
}

fn widened(value: Option<u64>) -> (r: Option<u128>)
    ensures
        crate::identity::opt_u128(r) == crate::identity::opt_u64(value),
{
    match value {
        Some(n) => Some(n as u128),
        None => None,
    }
}

fn optional_text_doc(value: &Option<String>) -> (r: Doc)
    ensures
        r@ == text_layout(opt_text(*value)),
{
    match value {
        Some(text) => text_doc(text.as_str()),
        None => Doc::Null,
    }
}

/// The document of an identity.
fn identity_doc(identity: &FileIdentity) -> (r: Doc)
    ensures
        r@ == Layout::Object(Style::Block(4), identity_members(identity@)),
{
    let members = vec![
        named("modified_unix_nanos", optional_number_doc(identity.modified_unix_nanos)),
        named("device", optional_number_doc(widened(identity.device))),
        named("inode", optional_number_doc(widened(identity.inode))),
        named("sample_fingerprint", optional_text_doc(&identity.sample_fingerprint)),
        named("sample_bytes", Doc::Number(identity.sample_bytes as u128)),
    ];
    proof {
        assert(doc_members(members@) =~= identity_members(identity@));
    }
    object_doc(Style::Block(4), members)
}

/// The document that describes a source.
pub fn source_doc(path: &str, size: u64, identity: &FileIdentity) -> (r: Doc)
    ensures
        r@ == Layout::Object(Style::Block(2), source_members(path@, size as nat, identity@)),
{
    let members = vec![
        named("path", text_doc(path)),
        named("size", Doc::Number(size as u128)),
        named("identity", identity_doc(identity)),
    ];
    proof {
        assert(doc_members(members@) =~= source_members(path@, size as nat, identity@));
    }
    object_doc(Style::Block(2), members)
}

/// The document of a framing.
pub fn framing_doc(framing: &FramingDescriptor) -> (r: Doc)
    ensures
        r@ == Layout::Object(Style::Block(2), framing_members(framing@)),
{
    let members = match framing {
        FramingDescriptor::Delimiter { delimiter } => {
            let mut hex = String::new();
            push_hex(&mut hex, delimiter.as_slice());
            proof {
                assert(hex@ =~= hex_text(delimiter@));
            }
            vec![
                named("strategy", text_doc("delimiter")),
                named("delimiter_hex", Doc::Text(hex)),
                named("delimiter_len", Doc::Number(delimiter.len() as u128)),
            ]
        },
        FramingDescriptor::FixedWidth { record_bytes } => vec![
            named("strategy", text_doc("fixed_width")),
            named("record_bytes", Doc::Number(*record_bytes as u128)),
        ],
        FramingDescriptor::LengthPrefixed {
            prefix_bytes,
            little_endian,
            length_includes_prefix,
        } => vec![
            named("strategy", text_doc("length_prefixed")),
            named("prefix_bytes", Doc::Number(*prefix_bytes as u128)),
            named("little_endian", Doc::Bool(*little_endian)),
            named("length_includes_prefix", Doc::Bool(*length_includes_prefix)),
        ],
        FramingDescriptor::Custom { name } => vec![
            named("strategy", text_doc("custom")),
            named("name", text_doc(name.as_str())),
        ],
    };
    proof {
        assert(doc_members(members@) =~= framing_members(framing@));
    }
    object_doc(Style::Block(2), members)
}

/// The document that names the program.
pub fn program_doc() -> (r: Doc)
    ensures
        r@ == Layout::Object(Style::Inline, program_members()),
{
    let members = vec![
        named("name", text_doc(PLANNER_NAME)),
        named("version", text_doc(PLANNER_VERSION)),
    ];
    proof {
        assert(doc_members(members@) =~= program_members());
    }
    object_doc(Style::Inline, members)
}

fn index_ref_doc(index: &Option<IndexReference>) -> (r: Doc)
    ensures
        r@ == (match *index {
            Some(i) => Layout::Object(Style::Block(4), index_ref_members(i@)),
            None => Layout::Null,
        }),
{
    match index {
        Some(i) => {
            let members = vec![
                named("path", optional_text_doc(&i.path)),
                named("stride", Doc::Number(i.stride as u128)),
                named("record_count", Doc::Number(i.record_count as u128)),
            ];
            proof {
                assert(doc_members(members@) =~= index_ref_members(i@));
            }
            object_doc(Style::Block(4), members)
        },
        None => Doc::Null,
    }
}

fn range_doc(i: usize, start: usize, end: usize) -> (r: Doc)
    requires
        start <= end,
    ensures
        r@ == Layout::Object(Style::Inline, range_members(i as int, (start as int, end as int))),
{
    let length: usize = end - start;
    let members = vec![
        named("index", Doc::Number(i as u128)),
        named("start", Doc::Number(start as u128)),
        named("end", Doc::Number(end as u128)),
        named("length", Doc::Number(length as u128)),
    ];
    proof {
        assert(doc_members(members@) =~= range_members(i as int, (start as int, end as int)));
    }
    object_doc(Style::Inline, members)
}

fn ranges_doc(ranges: &[(usize, usize)]) -> (r: Doc)
    requires
        forall|i: int| 0 <= i < ranges@.len() ==> (#[trigger] ranges@[i]).0 <= ranges@[i].1,
    ensures
        r@ == Layout::Array(Style::Block(2), range_layouts(int_ranges(ranges@))),
{
    let mut items: Vec<Doc> = Vec::new();
    let mut i: usize = 0;
    while i < ranges.len()
        invariant
            i <= ranges@.len(),
            forall|k: int| 0 <= k < ranges@.len() ==> (#[trigger] ranges@[k]).0 <= ranges@[k].1,
            doc_items(items@) == range_layouts(int_ranges(ranges@)).take(i as int),
        decreases ranges@.len() - i,
    {
        let ghost before = items@;
        items.push(range_doc(i, ranges[i].0, ranges[i].1));
        proof {
            assert(doc_items(items@) =~= doc_items(before).push(items@.last()@));
            assert(doc_items(items@) =~= range_layouts(int_ranges(ranges@)).take(i + 1));
        }
        i = i + 1;
    }
    proof {
        assert(doc_items(items@) =~= range_layouts(int_ranges(ranges@)));
    }
    array_doc(Style::Block(2), items)
}

impl RangePlan {
    /// No range ends in front of its start.
    pub open spec fn ranges_ordered(&self) -> bool {
        forall|i: int|
            0 <= i < self.ranges@.len() ==> (#[trigger] self.ranges@[i]).0 <= self.ranges@[i].1
    }

    fn partitioning_doc(&self) -> (r: Doc)
        ensures
            r@ == Layout::Object(Style::Block(2), partitioning_members(self@)),
    {
        let strategy = if self.index.is_some() {
            "indexed_records"
        } else {
            "bytes"
        };
        let mode = match self.source_mode {
            Some(mode) => text_doc(mode.as_str()),
            None => Doc::Null,
        };
        let window = match self.window_bytes {
            Some(window) => Doc::Number(window as u128),
            None => Doc::Null,
        };
        let members = vec![
            named("strategy", text_doc(strategy)),
            named("requested_partitions", Doc::Number(self.requested_partitions as u128)),
            named("actual_partitions", Doc::Number(self.ranges.len() as u128)),
            named("source_mode", mode),
            named("window_bytes", window),
            named("source_index", index_ref_doc(&self.index)),
        ];
        proof {
            assert(doc_members(members@) =~= partitioning_members(self@));
        }
        object_doc(Style::Block(2), members)
    }

    /// The plan as a JSON text. Equal plans give equal texts.
    pub fn to_json(&self) -> (r: String)
        requires
            self.ranges_ordered(),
        ensures
            r@ == rendered(plan_layout(self@)),
    {
        let members = vec![
            named("schema", text_doc(PLAN_SCHEMA)),
            named("schema_version", Doc::Number(PLAN_SCHEMA_VERSION as u128)),
            named("planner", program_doc()),
            named(
                "source",
                source_doc(self.source_path.as_str(), self.source_size, &self.identity),
            ),
            named("framing", framing_doc(&self.framing)),
            named("partitioning", self.partitioning_doc()),
            named("ranges", ranges_doc(self.ranges.as_slice())),
        ];
        proof {
            assert(doc_members(members@) =~= plan_members(self@));
        }
        object_doc(Style::Block(0), members).to_text()
    }

    /// The bytes of [`to_json`](Self::to_json).
    pub fn canonical_bytes(&self) -> (r: Vec<u8>)
        requires
            self.ranges_ordered(),
        ensures
            r@ == encode_utf8(rendered(plan_layout(self@))),
    {
        let text = self.to_json();
        vstd::slice::slice_to_vec(text.as_str().as_bytes())
    }
}

/// Seal planned ranges with the identity of the source, which must be the same
/// before planning and after it.
pub fn seal_plan(
    source_path: String,
    before: FileIdentity,
    after: &FileIdentity,
    framing: FramingDescriptor,
    requested_partitions: usize,
    source_mode: SourceMode,
    window_bytes: usize,
    ranges: Vec<(usize, usize)>,
) -> (r: Result<RangePlan, SourceError>)
    ensures
        match r {
            Ok(plan) => before@ == after@ && plan@ == (Plan {
                source_path: source_path@,
                source_size: before@.size,
                identity: before@,
                framing: framing@,
                requested_partitions: requested_partitions as nat,
                source_mode: Some(source_mode),
                window_bytes: if source_mode is Windowed {
                    Some(window_bytes as nat)
                } else {
                    None
                },
                index: None,
                ranges: int_ranges(ranges@),
            }),
            Err(e) => before@ != after@ && e == SourceError::ChangedWhilePlanning,
        },
{
    if !before.same(after) {
        return Err(SourceError::ChangedWhilePlanning);
    }
    Ok(
        RangePlan {
            source_path,
            source_size: before.size,
            identity: before,
            framing,
            requested_partitions,
            source_mode: Some(source_mode),
            window_bytes: match source_mode {
                SourceMode::Windowed => Some(window_bytes),
                _ => None,
            },
            index: None,
            ranges,
        },
    )
}

/// Make a plan of ranges that came from an index, for a source whose current
/// identity is the one the index was made for.
pub fn plan_from_ranges(
    source_path: String,
    current: &FileIdentity,
    identity: &FileIdentity,
    framing: FramingDescriptor,
    requested_partitions: usize,
    index: IndexReference,
    ranges: Vec<(usize, usize)>,
) -> (r: Result<RangePlan, SourceError>)
    ensures
        match r {
            Ok(plan) => current@ == identity@ && plan@ == (Plan {
                source_path: source_path@,
                source_size: identity@.size,
                identity: identity@,
                framing: framing@,
                requested_partitions: requested_partitions as nat,
                source_mode: None,
                window_bytes: None,
                index: Some(index@),
                ranges: int_ranges(ranges@),
            }),
            Err(e) => current@ != identity@ && e == SourceError::IdentityMismatch,
        },
{
    if !current.same(identity) {
        return Err(SourceError::IdentityMismatch);
    }
    Ok(
        RangePlan {
            source_path,
            source_size: identity.size,
            identity: identity.duplicate(),
            framing,
            requested_partitions,
            source_mode: None,
            window_bytes: None,
            index: Some(index),
            ranges,
        },
    )
}

} // verus!
