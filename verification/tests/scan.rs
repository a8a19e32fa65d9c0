//! Scans over the ranges of stored plans.

use std::sync::Arc;

use datafusion::arrow::datatypes::DataType;
use datafusion::physical_plan::{ExecutionPlan, ExecutionPlanProperties};
use datafusion_datasource::file_groups::FileGroup;
use datafusion_datasource::source::DataSourceExec;
use datafusion_datasource::FileRange;
use datafusion_datasource_json::source::JsonSource;
use mmap_chunker_core::framing::FramingDescriptor;
use mmap_chunker_core::identity::FileIdentity;
use mmap_chunker_core::manifest::RangePlan;
use mmap_chunker_core::scan::{
    load_manifest_ranges, local_object_location, ndjson_schema, ManifestRanges, NdjsonRangeScan,
};
use mmap_chunker_core::scanner::find_partition_boundaries;
use mmap_chunker_core::source::SourceMode;

fn stored(framing: FramingDescriptor) -> String {
    let identity = FileIdentity {
        size: 30,
        modified_unix_nanos: None,
        device: None,
        inode: None,
        sample_fingerprint: None,
        sample_bytes: 0,
    };
    let plan = RangePlan {
        source_path: "/data/records.jsonl".to_owned(),
        source_size: 30,
        identity,
        framing,
        requested_partitions: 2,
        source_mode: Some(SourceMode::Mmap),
        window_bytes: None,
        index: None,
        ranges: vec![(0, 12), (12, 30)],
    };
    plan.to_json()
}

fn tasks_of(plan: &Arc<DataSourceExec>) -> usize {
    let plan: Arc<dyn ExecutionPlan> = plan.clone();
    plan.output_partitioning().partition_count()
}

fn groups_of(plan: &DataSourceExec) -> &[FileGroup] {
    let (config, _) = plan.downcast_to_file_source::<JsonSource>().unwrap();
    &config.file_groups
}

#[test]
fn manifest_ranges_reject_wrong_schema() {
    assert!(load_manifest_ranges(r#"{"schema":"other"}"#).is_err());
}

#[test]
fn a_stored_plan_can_be_scanned() {
    let text = stored(FramingDescriptor::Delimiter {
        delimiter: b"\n".to_vec(),
    });
    let manifest = load_manifest_ranges(&text).unwrap();
    assert_eq!(
        manifest,
        ManifestRanges {
            source_path: "/data/records.jsonl".to_owned(),
            source_size: 30,
            delimiter_hex: "0a".to_owned(),
            ranges: vec![(0, 12), (12, 30)],
        }
    );
    let scan = NdjsonRangeScan::from_manifest(manifest, "/data/records.jsonl", ndjson_schema());
    assert_eq!(scan.location, "data/records.jsonl");
    assert_eq!(scan.file_size, 30);
    let plan = scan.execution_plan();
    assert_eq!(tasks_of(&plan), 2);
    assert_eq!(plan.schema(), ndjson_schema());
    let groups = groups_of(&plan);
    assert_eq!(groups.len(), 2);
    for (group, (start, end)) in groups.iter().zip([(0, 12), (12, 30)]) {
        assert_eq!(group.len(), 1);
        let file = &group.files()[0];
        assert_eq!(file.object_meta.location.as_ref(), "data/records.jsonl");
        assert_eq!(file.object_meta.size, 30);
        assert_eq!(file.range, Some(FileRange { start, end }));
    }
}

fn problem(text: &str) -> String {
    load_manifest_ranges(text).unwrap_err()
}

#[test]
fn each_problem_is_named() {
    let fixed = stored(FramingDescriptor::FixedWidth { record_bytes: 8 });
    assert_eq!(
        problem(&fixed),
        "only delimiter framing manifests are supported by this reader"
    );
    assert!(problem("{").starts_with("invalid JSON at byte "));
    assert_eq!(
        problem(r#"{"schema": "a\"b"}"#),
        r#"unexpected manifest schema: Some("a\"b")"#
    );
    assert_eq!(problem("{}"), "unexpected manifest schema: None");
    assert_eq!(
        problem(r#"{"schema": 1}"#),
        "unexpected manifest schema: None"
    );
    let head = r#"{"schema": "mmap-chunker-plan""#;
    assert_eq!(problem(&format!("{head}}}")), "manifest is missing source");
    assert_eq!(
        problem(&format!("{head}, \"source\": {{}}}}")),
        "manifest source path is missing"
    );
    assert_eq!(
        problem(&format!("{head}, \"source\": {{\"path\": \"x\"}}}}")),
        "manifest source size is missing"
    );
    let source = format!("{head}, \"source\": {{\"path\": \"x\", \"size\": 9}}");
    assert_eq!(problem(&format!("{source}}}")), "manifest is missing framing");
    let framing = format!("{source}, \"framing\": {{\"delimiter_hex\": \"0a\"}}");
    assert_eq!(problem(&format!("{framing}}}")), "manifest is missing ranges");
    assert_eq!(
        problem(&format!("{framing}, \"ranges\": [{{\"end\": 4}}]}}")),
        "range 0 has no start"
    );
    assert_eq!(
        problem(&format!(
            "{framing}, \"ranges\": [{{\"start\": 0, \"end\": 4}}, {{\"start\": 4}}]}}"
        )),
        "range 1 has no end"
    );
    let empty = load_manifest_ranges(&format!("{framing}, \"ranges\": []}}")).unwrap();
    assert!(empty.ranges.is_empty());
}

#[test]
fn locations_have_no_leading_slashes() {
    assert_eq!(local_object_location("/var/data/a.jsonl"), "var/data/a.jsonl");
    assert_eq!(local_object_location("\\\\?\\C:\\a"), "?\\C:\\a");
    assert_eq!(local_object_location("plain"), "plain");
    assert_eq!(local_object_location("//"), "");
}

#[test]
fn a_scan_keeps_what_it_is_given() {
    let scan = NdjsonRangeScan::new("a".to_owned(), 5, vec![(0, 2), (2, 5)], ndjson_schema());
    assert_eq!(scan.location, "a");
    assert_eq!(scan.file_size, 5);
    assert_eq!(scan.ranges, vec![(0, 2), (2, 5)]);
    assert_eq!(scan.schema, ndjson_schema());
}

#[test]
fn the_schema_has_a_number_and_a_text() {
    let schema = ndjson_schema();
    assert_eq!(schema.fields().len(), 2);
    assert_eq!(schema.field(0).name(), "id");
    assert_eq!(schema.field(0).data_type(), &DataType::Int64);
    assert_eq!(schema.field(0).data_type().to_string(), "Int64");
    assert!(schema.field(0).is_nullable());
    assert_eq!(schema.field(1).name(), "payload");
    assert_eq!(schema.field(1).data_type(), &DataType::Utf8);
    assert_eq!(schema.field(1).data_type().to_string(), "Utf8");
    assert!(schema.field(1).is_nullable());
}

#[test]
fn planned_ranges_are_tasks_of_the_plan() {
    let mut content = String::new();
    for index in 0..1000 {
        let payload = "x".repeat((index * 7) % 41);
        content.push_str(&format!("{{\"id\":{index},\"payload\":\"{payload}\"}}\n"));
    }
    let data = content.as_bytes();
    let ranges = find_partition_boundaries(data, 8, b'\n');
    assert_eq!(ranges.len(), 8);
    let size = data.len() as u64;
    let scan = NdjsonRangeScan::new("a.jsonl".to_owned(), size, ranges.clone(), ndjson_schema());
    let plan = scan.execution_plan();
    assert_eq!(tasks_of(&plan), ranges.len());
    let planned: Vec<(usize, usize)> = groups_of(&plan)
        .iter()
        .map(|group| {
            let range = group.files()[0].range.clone().unwrap();
            (range.start as usize, range.end as usize)
        })
        .collect();
    assert_eq!(planned, ranges);
    let whole = NdjsonRangeScan::new("a.jsonl".to_owned(), size, vec![(0, data.len())], scan.schema);
    assert_eq!(tasks_of(&whole.execution_plan()), 1);
}
