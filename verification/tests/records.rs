//! Records, and the partitions and chunks that hold them.

use mmap_chunker_core::framing::{BuiltinFraming, FramingDescriptor};
use mmap_chunker_core::identity::{FileIdentity, IDENTITY_SAMPLE_BYTES};
use mmap_chunker_core::manifest::RangePlan;
use mmap_chunker_core::scanner::{
    find_chunk_boundaries_pattern, find_partition_boundaries_pattern,
};
use mmap_chunker_core::source::{
    plan_partition_boundaries_with, SliceSource, SourceMode, DEFAULT_SCAN_BUFFER_BYTES,
};

/// The records one after another, by a search of every offset.
fn records(data: &[u8], delimiter: &[u8]) -> Vec<(usize, usize)> {
    let mut found = Vec::new();
    let mut start = 0;
    while start < data.len() {
        let mut end = data.len();
        for at in start..data.len() {
            if data[at..].starts_with(delimiter) {
                end = at + delimiter.len();
                break;
            }
        }
        found.push((start, end));
        start = end;
    }
    found
}

fn each_record_is_whole(records: &[(usize, usize)], ranges: &[(usize, usize)]) -> bool {
    records.iter().all(|record| {
        ranges
            .iter()
            .any(|range| range.0 <= record.0 && record.1 <= range.1)
    })
}

fn plan_of(data: &[u8], delimiter: &[u8], ranges: Vec<(usize, usize)>) -> RangePlan {
    RangePlan {
        source_path: "data.bin".to_owned(),
        source_size: data.len() as u64,
        identity: FileIdentity {
            size: data.len() as u64,
            modified_unix_nanos: None,
            device: None,
            inode: None,
            sample_fingerprint: None,
            sample_bytes: IDENTITY_SAMPLE_BYTES,
        },
        framing: FramingDescriptor::Delimiter {
            delimiter: delimiter.to_vec(),
        },
        requested_partitions: 4,
        source_mode: Some(SourceMode::Mmap),
        window_bytes: None,
        index: None,
        ranges,
    }
}

#[test]
fn partitions_split_no_record() {
    let data = b"one\r\ntwo\r\n\r\nthree and more\r\nfour";
    let expected = records(data, b"\r\n");
    assert_eq!(
        expected,
        vec![(0, 5), (5, 10), (10, 12), (12, 28), (28, 32)]
    );
    for parts in 1..=data.len() + 1 {
        let ranges = find_partition_boundaries_pattern(data, parts, b"\r\n");
        assert!(each_record_is_whole(&expected, &ranges));
        assert!(ranges.len() <= expected.len());
    }
}

#[test]
fn chunks_split_no_record() {
    let data = b"one\r\ntwo\r\n\r\nthree and more\r\nfour";
    let expected = records(data, b"\r\n");
    for chunk_size in 0..=data.len() + 1 {
        let chunks = find_chunk_boundaries_pattern(data, chunk_size, b"\r\n");
        assert!(each_record_is_whole(&expected, &chunks));
    }
}

#[test]
fn planned_ranges_of_a_long_delimiter_are_accepted() {
    let data = b"one\r\ntwo\r\n\r\nthree and more\r\nfour";
    let strategy = BuiltinFraming::delimiter(b"\r\n".to_vec()).unwrap();
    let source = SliceSource { data };
    for parts in 1..=data.len() {
        let ranges =
            plan_partition_boundaries_with(&source, parts, &strategy, DEFAULT_SCAN_BUFFER_BYTES)
                .unwrap();
        assert!(plan_of(data, b"\r\n", ranges).verify_coverage(data).is_ok());
    }
}

#[test]
fn a_delimiter_that_overlaps_itself_may_split_a_record() {
    let data = b"xaaay";
    let ranges = find_partition_boundaries_pattern(data, 2, b"aa");
    assert_eq!(ranges, vec![(0, 4), (4, 5)]);
    assert_eq!(records(data, b"aa"), vec![(0, 3), (3, 5)]);
    assert!(!each_record_is_whole(&records(data, b"aa"), &ranges));
    assert!(plan_of(data, b"aa", ranges).verify_coverage(data).is_err());
}
