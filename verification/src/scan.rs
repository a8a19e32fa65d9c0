//! The ranges of a stored plan, for engines that scan one range per task.

use crate::json::{
    document, fault_position, item_values, json_error_text, lookup, unsigned_of, Json, JsonValue,
};
use crate::manifest::PLAN_SCHEMA;
use crate::ranges::int_ranges;
use crate::reader::{str_member, text_member};
use crate::text::{chars_of, dec_text, push_decimal, same_text, text_of};
use datafusion::arrow::datatypes::{DataType, Field, Schema};
use datafusion::datasource::object_store::ObjectStoreUrl;
use datafusion_datasource::file::FileSource;
use datafusion_datasource::file_groups::FileGroup;
use datafusion_datasource::file_scan_config::FileScanConfigBuilder;
use datafusion_datasource::source::DataSourceExec;
use datafusion_datasource::PartitionedFile;
use datafusion_datasource_json::source::JsonSource;
use std::sync::Arc;
use vstd::prelude::*;

verus! {

/// The part of a stored plan that a scan needs.
#[derive(Debug, Clone, PartialEq, Eq)]
pub struct ManifestRanges {
    /// Path of the source in the plan.
    pub source_path: String,
    /// Size of the source in bytes.
    pub source_size: u64,
    /// Record delimiter in hexadecimal.
    pub delimiter_hex: String,
    /// The ranges in stored order, from start up to and without end.
    pub ranges: Vec<(usize, usize)>,
}

/// The part of a stored plan that a scan needs, as mathematical data.
#[verifier::ext_equal]
pub struct ScanPlan {
    pub source_path: Seq<char>,
    pub source_size: nat,
    pub delimiter_hex: Seq<char>,
    pub ranges: Seq<(int, int)>,
}

impl View for ManifestRanges {
    type V = ScanPlan;

    open spec fn view(&self) -> ScanPlan {
        ScanPlan {
            source_path: self.source_path@,
            source_size: self.source_size as nat,
            delimiter_hex: self.delimiter_hex@,
            ranges: int_ranges(self.ranges@),
        }
    }
}

/// How std's `Debug` prints an optional text.
pub uninterp spec fn debug_text(value: Option<Seq<char>>) -> Seq<char>;

/// An optional text by its characters.
pub open spec fn optional_chars(value: Option<&str>) -> Option<Seq<char>> {
    match value {
        Some(text) => Some(text@),
        None => None,
    }
}

/// `format!` with `{:?}` on an `Option<&str>`. The contract claims that the
/// outcome depends on the text alone; how the text is quoted and escaped is
/// left to std.
#[verifier::external_body]
fn format_debug(value: Option<&str>) -> (r: String)
    ensures
        r@ == debug_text(optional_chars(value)),
{
    format!("{value:?}")
}

/// An unsigned member of an object.
pub open spec fn number_member(value: JsonValue, key: Seq<char>) -> Option<nat> {
    match lookup(value, key) {
        Some(member) => unsigned_of(member, u64::MAX as nat),
        None => None,
    }
}

/// A message about range `i`.
pub open spec fn range_message(i: int, problem: Seq<char>) -> Seq<char> {
    "range "@ + dec_text(i as nat) + problem
}

/// The range that entry `i` of the list describes.
pub open spec fn range_entry(entry: JsonValue, i: int) -> Result<(int, int), Seq<char>> {
    match number_member(entry, "start"@) {
        None => Err(range_message(i, " has no start"@)),
        Some(start) => match number_member(entry, "end"@) {
            None => Err(range_message(i, " has no end"@)),
            Some(end) => if start > usize::MAX {
                Err(range_message(i, " start exceeds usize"@))
            } else if end > usize::MAX {
                Err(range_message(i, " end exceeds usize"@))
            } else {
                Ok((start as int, end as int))
            },
        },
    }
}

/// The ranges that the first `k` entries of the list describe.
pub open spec fn range_entries(entries: Seq<JsonValue>, k: int) -> Result<
    Seq<(int, int)>,
    Seq<char>,
>
    decreases k,
{
    if k <= 0 {
        Ok(Seq::empty())
    } else {
        match range_entries(entries, k - 1) {
            Err(e) => Err(e),
            Ok(ranges) => match range_entry(entries[k - 1], k - 1) {
                Err(e) => Err(e),
                Ok(range) => Ok(ranges.push(range)),
            },
        }
    }
}

/// What a scan finds in a parsed plan, or why it refuses it.
pub open spec fn scan_plan_of(root: JsonValue) -> Result<ScanPlan, Seq<char>> {
    if text_member(root, "schema"@) != Some(PLAN_SCHEMA@) {
        Err("unexpected manifest schema: "@ + debug_text(text_member(root, "schema"@)))
    } else {
        match lookup(root, "source"@) {
            None => Err("manifest is missing source"@),
            Some(source) => match text_member(source, "path"@) {
                None => Err("manifest source path is missing"@),
                Some(path) => match number_member(source, "size"@) {
                    None => Err("manifest source size is missing"@),
                    Some(size) => scan_ranges_of(root, path, size),
                },
            },
        }
    }
}

/// As [`scan_plan_of`], once the source is known.
pub open spec fn scan_ranges_of(root: JsonValue, path: Seq<char>, size: nat) -> Result<
    ScanPlan,
    Seq<char>,
> {
    match lookup(root, "framing"@) {
        None => Err("manifest is missing framing"@),
        Some(framing) => match text_member(framing, "delimiter_hex"@) {
            None => Err("only delimiter framing manifests are supported by this reader"@),
            Some(hex) => match lookup(root, "ranges"@) {
                Some(JsonValue::Array(entries)) => match range_entries(
                    entries,
                    entries.len() as int,
                ) {
                    Err(e) => Err(e),
                    Ok(ranges) => Ok(
                        ScanPlan {
                            source_path: path,
                            source_size: size,
                            delimiter_hex: hex,
                            ranges,
                        },
                    ),
                },
                _ => Err("manifest is missing ranges"@),
            },
        },
    }
}

/// What a scan finds in the text of a stored plan, or why it refuses it.
pub open spec fn scan_plan(text: Seq<char>) -> Result<ScanPlan, Seq<char>> {
    match document(text) {
        Ok(root) => scan_plan_of(root),
        Err(fault) => Err(json_error_text(fault_position(text, fault), fault.message)),
    }
}

/// A refused entry refuses the list.
proof fn lemma_entries_refused(entries: Seq<JsonValue>, k: int, n: int)
    requires
        k <= n,
        range_entries(entries, k) is Err,
    ensures
        range_entries(entries, n) == range_entries(entries, k),
    decreases n - k,
{
    if k < n {
        lemma_entries_refused(entries, k, n - 1);
    }
}

fn unsigned_member(value: &Json, key: &str) -> (r: Option<u64>)
    ensures
        match r {
            Some(n) => number_member(value@, key@) == Some(n as nat),
            None => number_member(value@, key@) is None,
        },
{
    match value.get(key) {
        Some(member) => member.as_u64(),
        None => None,
    }
}

fn range_problem(i: usize, problem: &str) -> (r: String)
    ensures
        r@ == range_message(i as int, problem@),
{
    let mut out = "range ".to_string();
    push_decimal(&mut out, i as u128);
    out.push_str(problem);
    out
}

/// Read the ranges of the list.
fn read_ranges(entries: &[Json]) -> (r: Result<Vec<(usize, usize)>, String>)
    ensures
        match r {
            Ok(ranges) => range_entries(item_values(entries@), entries@.len() as int) == Ok::<
                Seq<(int, int)>,
                Seq<char>,
            >(int_ranges(ranges@)),
            Err(message) => range_entries(item_values(entries@), entries@.len() as int) == Err::<
                Seq<(int, int)>,
                Seq<char>,
            >(message@),
        },
{
    let ghost values = item_values(entries@);
    let mut ranges: Vec<(usize, usize)> = Vec::new();
    let mut i: usize = 0;
    proof {
        assert(int_ranges(ranges@) =~= Seq::empty());
    }
    while i < entries.len()
        invariant
            i <= entries@.len(),
            values == item_values(entries@),
            range_entries(values, i as int) == Ok::<Seq<(int, int)>, Seq<char>>(
                int_ranges(ranges@),
            ),
        decreases entries@.len() - i,
    {
        let entry = &entries[i];
        proof {
            assert(values[i as int] == entry@);
            if range_entry(entry@, i as int) is Err {
                lemma_entries_refused(values, i + 1, entries@.len() as int);
            }
        }
        let start: u64 = match unsigned_member(entry, "start") {
            Some(start) => start,
            None => {
                return Err(range_problem(i, " has no start"));
            },
        };
        let end: u64 = match unsigned_member(entry, "end") {
            Some(end) => end,
            None => {
                return Err(range_problem(i, " has no end"));
            },
        };
        if start > usize::MAX as u64 {
            return Err(range_problem(i, " start exceeds usize"));
        }
        if end > usize::MAX as u64 {
            return Err(range_problem(i, " end exceeds usize"));
        }
        proof {
            assert(int_ranges(ranges@.push((start as usize, end as usize))) =~= int_ranges(
                ranges@,
            ).push((start as int, end as int)));
        }
        ranges.push((start as usize, end as usize));
        i = i + 1;
    }
    Ok(ranges)
}

/// What an executable outcome says.
pub open spec fn ranges_result(r: Result<ManifestRanges, String>) -> Result<ScanPlan, Seq<char>> {
    match r {
        Ok(ranges) => Ok(ranges@),
        Err(message) => Err(message@),
    }
}

/// Read the ranges of a stored plan whose records end in a delimiter.
pub fn load_manifest_ranges(text: &str) -> (r: Result<ManifestRanges, String>)
    ensures
        ranges_result(r) == scan_plan(text@),
{
    let root = match Json::parse(text) {
        Ok(root) => root,
        Err(error) => {
            return Err(error.to_string());
        },
    };
    let schema = str_member(&root, "schema");
    let known: bool = match schema {
        Some(schema) => same_text(schema, PLAN_SCHEMA),
        None => false,
    };
    if !known {
        let mut message = "unexpected manifest schema: ".to_string();
        message.push_str(format_debug(schema).as_str());
        return Err(message);
    }
    let source = match root.get("source") {
        Some(source) => source,
        None => {
            return Err("manifest is missing source".to_string());
        },
    };
    let source_path = match str_member(source, "path") {
        Some(path) => path,
        None => {
            return Err("manifest source path is missing".to_string());
        },
    };
    let source_size: u64 = match unsigned_member(source, "size") {
        Some(size) => size,
        None => {
            return Err("manifest source size is missing".to_string());
        },
    };
    let framing = match root.get("framing") {
        Some(framing) => framing,
        None => {
            return Err("manifest is missing framing".to_string());
        },
    };
    let delimiter_hex = match str_member(framing, "delimiter_hex") {
        Some(hex) => hex,
        None => {
            return Err(
                "only delimiter framing manifests are supported by this reader".to_string(),
            );
        },
    };
    let entries = match root.get("ranges") {
        Some(list) => match list.as_array() {
            Some(entries) => entries,
            None => {
                return Err("manifest is missing ranges".to_string());
            },
        },
        None => {
            return Err("manifest is missing ranges".to_string());
        },
    };
    match read_ranges(entries) {
        Ok(ranges) => Ok(
            ManifestRanges {
                source_path: source_path.to_string(),
                source_size,
                delimiter_hex: delimiter_hex.to_string(),
                ranges,
            },
        ),
        Err(message) => Err(message),
    }
}

/// A path without the slashes and backslashes that it starts with.
pub open spec fn without_leading_slashes(path: Seq<char>) -> Seq<char>
    decreases path.len(),
{
    if path.len() > 0 && (path[0] == '/' || path[0] == '\\') {
        without_leading_slashes(path.skip(1))
    } else {
        path
    }
}

/// The location of an absolute path in a store that is rooted in the local
/// file system.
pub fn local_object_location(path: &str) -> (r: String)
    ensures
        r@ == without_leading_slashes(path@),
{
    let chars = chars_of(path);
    let len: usize = chars.len();
    let mut i: usize = 0;
    proof {
        assert(path@.skip(0) =~= path@);
    }
    while i < len && (chars[i] == '/' || chars[i] == '\\')
        invariant
            i <= len == chars@.len(),
            chars@ == path@,
            without_leading_slashes(path@) == without_leading_slashes(path@.skip(i as int)),
        decreases len - i,
    {
        proof {
            assert(path@.skip(i as int).skip(1) =~= path@.skip(i + 1));
        }
        i = i + 1;
    }
    let rest = vstd::slice::slice_subrange(chars.as_slice(), i, len);
    proof {
        assert(rest@ =~= path@.skip(i as int));
    }
    text_of(rest)
}

/// Arrow's description of the columns of a table.
#[verifier::external_type_specification]
#[verifier::external_body]
pub struct ExSchema(datafusion::arrow::datatypes::Schema);

/// What a schema holds: of each column its name, what Arrow calls its type, and
/// whether a value may be missing.
pub uninterp spec fn schema_columns(schema: Schema) -> Seq<(Seq<char>, Seq<char>, bool)>;

/// The type of a column.
#[derive(Debug, Clone, Copy, PartialEq, Eq)]
pub enum ColumnType {
    Int64,
    Utf8,
}

impl ColumnType {
    /// What Arrow calls the type.
    pub open spec fn name(self) -> Seq<char> {
        match self {
            ColumnType::Int64 => "Int64"@,
            ColumnType::Utf8 => "Utf8"@,
        }
    }
}

/// `Schema::new` on one `Field::new` per column. The contract claims that the
/// schema then holds these columns in this order.
#[verifier::external_body]
fn schema_of(columns: &[(&str, ColumnType, bool)]) -> (schema: Arc<Schema>)
    ensures
        schema_columns(*schema) == columns@.map_values(
            |column: (&str, ColumnType, bool)| (column.0@, column.1.name(), column.2),
        ),
{
    let field = |column: &(&str, ColumnType, bool)| {
        let kind = match column.1 {
            ColumnType::Int64 => DataType::Int64,
            ColumnType::Utf8 => DataType::Utf8,
        };
        Field::new(column.0, kind, column.2)
    };
    Arc::new(Schema::new(columns.iter().map(field).collect::<Vec<Field>>()))
}

/// A schema with a number `id` and a text `payload`, either of which may be
/// missing.
pub fn ndjson_schema() -> (schema: Arc<Schema>)
    ensures
        schema_columns(*schema) == seq![("id"@, "Int64"@, true), ("payload"@, "Utf8"@, true)],
{
    let mut columns: Vec<(&str, ColumnType, bool)> = Vec::new();
    columns.push(("id", ColumnType::Int64, true));
    columns.push(("payload", ColumnType::Utf8, true));
    schema_of(columns.as_slice())
}

/// A scan of a file of records with one task per planned range.
#[derive(Debug, Clone)]
pub struct NdjsonRangeScan {
    /// Location of the file in its store.
    pub location: String,
    /// Size of the file in bytes.
    pub file_size: u64,
    /// One range per task, from start up to and without end.
    pub ranges: Vec<(usize, usize)>,
    /// Schema of the records.
    pub schema: Arc<Schema>,
}

/// DataFusion's group of files that one task reads in order.
#[verifier::external_type_specification]
#[verifier::external_body]
pub struct ExFileGroup(datafusion_datasource::file_groups::FileGroup);

/// The path that an object store keeps for a location: what
/// `object_store::path::Path::from` makes of it.
pub uninterp spec fn object_path(location: Seq<char>) -> Seq<char>;

/// What a file group holds: of each file its path in the store, its size, and
/// the first byte to read and the one to stop at.
pub uninterp spec fn group_files(group: FileGroup) -> Seq<(Seq<char>, u64, i64, i64)>;

/// `FileGroup::new` on a single `PartitionedFile::new`, restricted by
/// `PartitionedFile::with_range`. The contract claims that the group then holds
/// that one file, under the path made of its location, with the size and the
/// bounds as they were given.
#[verifier::external_body]
fn single_file_group(location: &str, file_size: u64, start: i64, end: i64) -> (group: FileGroup)
    ensures
        group_files(group) == seq![(object_path(location@), file_size, start, end)],
{
    FileGroup::new(vec![PartitionedFile::new(location, file_size).with_range(start, end)])
}

/// DataFusion's plan of a scan.
#[verifier::external_type_specification]
#[verifier::external_body]
pub struct ExDataSourceExec(datafusion_datasource::source::DataSourceExec);

/// The file groups that a plan scans, one task each, by what they hold.
pub uninterp spec fn scanned_groups(plan: DataSourceExec) -> Seq<Seq<(Seq<char>, u64, i64, i64)>>;

/// The columns that a plan reads, as `schema_columns` gives them.
pub uninterp spec fn scanned_columns(plan: DataSourceExec) -> Seq<(Seq<char>, Seq<char>, bool)>;

/// `DataSourceExec::from_data_source` on what `FileScanConfigBuilder` builds of
/// these groups and a `JsonSource::new` with this schema. The contract claims
/// that the plan scans these groups in this order, and the columns of the
/// schema. That the files are read from the local file system, line by line as
/// JSON, is left unsaid.
#[verifier::external_body]
fn json_scan(schema: &Arc<Schema>, groups: Vec<FileGroup>) -> (plan: Arc<DataSourceExec>)
    ensures
        scanned_groups(*plan) == groups@.map_values(|group: FileGroup| group_files(group)),
        scanned_columns(*plan) == schema_columns(**schema),
{
    let source: Arc<dyn FileSource> = Arc::new(JsonSource::new(Arc::clone(schema)));
    let config = FileScanConfigBuilder::new(ObjectStoreUrl::local_filesystem(), source)
        .with_file_groups(groups)
        .build();
    DataSourceExec::from_data_source(config)
}

impl NdjsonRangeScan {
    /// A scan of the given ranges.
    pub fn new(
        location: String,
        file_size: u64,
        ranges: Vec<(usize, usize)>,
        schema: Arc<Schema>,
    ) -> (scan: Self)
        ensures
            scan == (NdjsonRangeScan { location, file_size, ranges, schema }),
    {
        NdjsonRangeScan { location, file_size, ranges, schema }
    }

    /// A scan of the ranges of a stored plan, whose file is at this absolute
    /// path.
    pub fn from_manifest(manifest: ManifestRanges, path: &str, schema: Arc<Schema>) -> (scan: Self)
        ensures
            scan.location@ == without_leading_slashes(path@),
            scan.file_size == manifest.source_size,
            scan.ranges == manifest.ranges,
            scan.schema == schema,
    {
        let location = local_object_location(path);
        NdjsonRangeScan::new(location, manifest.source_size, manifest.ranges, schema)
    }

    /// What the groups of the scan hold: range `i` of the file, and nothing
    /// else, in group `i`.
    pub open spec fn groups(&self) -> Seq<Seq<(Seq<char>, u64, i64, i64)>> {
        self.ranges@.map_values(
            |range: (usize, usize)|
                seq![(object_path(self.location@), self.file_size, range.0 as i64, range.1 as i64)],
        )
    }

    /// One file group per range, in order.
    fn file_groups(&self) -> (groups: Vec<FileGroup>)
        ensures
            groups@.map_values(|group: FileGroup| group_files(group)) == self.groups(),
    {
        let mut groups: Vec<FileGroup> = Vec::new();
        let mut i: usize = 0;
        while i < self.ranges.len()
            invariant
                i <= self.ranges@.len(),
                groups@.len() == i,
                forall|j: int|
                    0 <= j < i ==> group_files(#[trigger] groups@[j]) == self.groups()[j],
            decreases self.ranges@.len() - i,
        {
            let (start, end) = self.ranges[i];
            groups.push(
                single_file_group(
                    self.location.as_str(),
                    self.file_size,
                    start as i64,
                    end as i64,
                ),
            );
            i = i + 1;
        }
        groups
    }

    /// The plan of the scan: one task per range, in order.
    pub fn execution_plan(&self) -> (plan: Arc<DataSourceExec>)
        ensures
            scanned_groups(*plan) == self.groups(),
            scanned_columns(*plan) == schema_columns(*self.schema),
    {
        json_scan(&self.schema, self.file_groups())
    }
}

} // verus!
