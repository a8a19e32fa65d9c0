//! Sparse record indexes.

use mmap_chunker_core::error::{ErrorKind, SourceError};
use mmap_chunker_core::framing::{BuiltinFraming, FramingStrategy};
use mmap_chunker_core::identity::{sample_fingerprint, FileIdentity, IDENTITY_SAMPLE_BYTES};
use mmap_chunker_core::index::{
    plan_partition_boundaries_from_index, scan_record_starts, seal_index, RecordIndex,
};
use mmap_chunker_core::manifest::{plan_from_ranges, IndexReference};
use mmap_chunker_core::source::{ByteSource, SliceSource, DEFAULT_SCAN_BUFFER_BYTES};

fn identify(content: &[u8]) -> FileIdentity {
    let source = SliceSource { data: content };
    FileIdentity {
        size: content.len() as u64,
        modified_unix_nanos: Some(1_790_008_126_888_781_900),
        device: Some(7),
        inode: Some(42),
        sample_fingerprint: Some(sample_fingerprint(&source).unwrap()),
        sample_bytes: IDENTITY_SAMPLE_BYTES,
    }
}

/// A source that hands out its bytes through reads only.
struct ReadSource<'a> {
    data: &'a [u8],
}

impl<'a> ByteSource for ReadSource<'a> {
    fn len(&self) -> usize {
        self.data.len()
    }

    fn read_at(&self, offset: usize, out: &mut [u8]) -> Result<usize, SourceError> {
        if offset >= self.data.len() || out.is_empty() {
            return Ok(0);
        }
        let n = out.len().min(self.data.len() - offset);
        out[..n].copy_from_slice(&self.data[offset..offset + n]);
        Ok(n)
    }

    fn as_slice(&self) -> Option<&[u8]> {
        None
    }
}

fn build_from<S: ByteSource>(
    source: &S,
    content: &[u8],
    strategy: &BuiltinFraming,
    stride: u64,
) -> Result<RecordIndex, SourceError> {
    let identity = identify(content);
    let (record_count, offsets) =
        scan_record_starts(source, strategy, stride, DEFAULT_SCAN_BUFFER_BYTES)?;
    seal_index(
        "data.bin".to_owned(),
        identity.duplicate(),
        &identity,
        strategy.describe(),
        stride,
        record_count,
        offsets,
    )
}

fn build(content: &[u8], strategy: &BuiltinFraming, stride: u64) -> RecordIndex {
    build_from(&SliceSource { data: content }, content, strategy, stride).unwrap()
}

fn crlf_records(count: usize) -> Vec<u8> {
    let mut content = Vec::new();
    for index in 0..count {
        content.extend_from_slice(format!("record-{index:04}\r\n").as_bytes());
    }
    content
}

#[test]
fn builds_index_for_delimiter_records() {
    let content = crlf_records(10);
    let strategy = BuiltinFraming::delimiter(b"\r\n".to_vec()).unwrap();

    let index = build(&content, &strategy, 3);
    assert_eq!(index.record_count, 10);
    assert_eq!(index.stride, 3);
    assert_eq!(index.source_size, content.len() as u64);
    // Records are 13 bytes long; every third record start is recorded.
    assert_eq!(index.offsets, vec![0, 39, 78, 117]);
    assert_eq!(index.identity, identify(&content));
}

#[test]
fn builds_index_for_fixed_width_and_pread() {
    let content: Vec<u8> = (0..100u8).collect();
    let strategy = BuiltinFraming::fixed_width(16).unwrap();

    let source = ReadSource { data: &content };
    let index = build_from(&source, &content, &strategy, 2).unwrap();
    assert_eq!(index.record_count, 7);
    assert_eq!(index.offsets, vec![0, 32, 64, 96]);
}

#[test]
fn builds_index_for_length_prefixed_records() {
    let payloads: &[&[u8]] = &[b"alpha", b"be", b"gamma-payload", b""];
    let mut content = Vec::new();
    for payload in payloads {
        content.extend_from_slice(&(payload.len() as u16).to_le_bytes());
        content.extend_from_slice(payload);
    }
    let strategy = BuiltinFraming::length_prefixed(2, true, false).unwrap();

    let source = ReadSource { data: &content };
    let index = build_from(&source, &content, &strategy, 2).unwrap();
    assert_eq!(index.record_count, 4);
    assert_eq!(index.offsets, vec![0, 11]);
}

#[test]
fn index_json_round_trips() {
    let content = crlf_records(7);
    let strategy = BuiltinFraming::delimiter(b"\r\n".to_vec()).unwrap();
    let index = build(&content, &strategy, 2);

    let json = index.to_json();
    assert!(json.contains("\"schema\": \"mmap-chunker-index\""));
    assert!(json.contains("\"schema_version\": 1"));
    assert!(json.contains("\"stride\": 2"));
    assert!(json.contains("\"record_count\": 7"));
    assert!(json.contains("\"delimiter_hex\": \"0d0a\""));

    let parsed = RecordIndex::parse(&json).unwrap();
    assert_eq!(parsed, index);
    assert_eq!(parsed.to_json(), json);
}

#[test]
fn indexed_planning_produces_record_aligned_ranges() {
    let content = crlf_records(100);
    let strategy = BuiltinFraming::delimiter(b"\r\n".to_vec()).unwrap();
    let index = build(&content, &strategy, 4);

    let ranges = plan_partition_boundaries_from_index(&index, 8, content.len()).unwrap();
    assert!(ranges.len() <= 8);
    let mut cursor = 0usize;
    for (start, end) in &ranges {
        assert_eq!(*start, cursor);
        assert!(end > start);
        assert!(
            index.offsets.contains(&(*start as u64)),
            "range start {start} is not an indexed record start"
        );
        cursor = *end;
    }
    assert_eq!(cursor, content.len());

    // Every non-final range ends on a complete CRLF record.
    for (start, end) in ranges.iter().take(ranges.len() - 1) {
        assert_eq!(&content[*end - 2..*end], b"\r\n", "range {start}..{end}");
    }

    // An index-derived manifest seals identity and records the index.
    let current = identify(&content);
    let plan = plan_from_ranges(
        "data.bin".to_owned(),
        &current,
        &index.identity,
        index.framing.clone(),
        8,
        IndexReference {
            stride: index.stride,
            record_count: index.record_count,
            path: Some("data.bin.mmapidx".to_owned()),
        },
        ranges.clone(),
    )
    .unwrap();
    assert_eq!(plan.ranges, ranges);
    let json = plan.to_json();
    assert!(json.contains("\"strategy\": \"indexed_records\""));
    assert!(json.contains("\"source_mode\": null"));
    assert!(json.contains("\"stride\": 4"));

    // A stale identity must be rejected.
    let mut stale = index.identity.clone();
    stale.sample_fingerprint = Some("fnv1a64:0x0000000000000000".to_owned());
    assert!(plan_from_ranges(
        "data.bin".to_owned(),
        &current,
        &stale,
        index.framing.clone(),
        8,
        IndexReference {
            stride: index.stride,
            record_count: index.record_count,
            path: None,
        },
        ranges,
    )
    .is_err());
}

#[test]
fn indexed_planning_rejects_mismatched_file_size() {
    let content = crlf_records(5);
    let strategy = BuiltinFraming::delimiter(b"\r\n".to_vec()).unwrap();
    let index = build(&content, &strategy, 1);

    assert!(plan_partition_boundaries_from_index(&index, 4, content.len() + 1).is_err());
}

#[test]
fn parse_rejects_malformed_indexes() {
    let cases = [
        "{}",
        r#"{"schema": "mmap-chunker-index"}"#,
        r#"{"schema": "mmap-chunker-index", "schema_version": 2}"#,
        r#"{"schema": "mmap-chunker-index", "schema_version": 1, "source": {"path": "x", "size": 10, "identity": {"sample_bytes": 1, "sample_fingerprint": null, "modified_unix_nanos": null, "device": null, "inode": null}}, "framing": {"strategy": "delimiter", "delimiter_hex": "0a", "delimiter_len": 1}, "index": {"stride": 1, "record_count": 2, "record_offsets": [1, 2]}}"#,
        r#"{"schema": "mmap-chunker-index", "schema_version": 1, "source": {"path": "x", "size": 10, "identity": {"sample_bytes": 1, "sample_fingerprint": null, "modified_unix_nanos": null, "device": null, "inode": null}}, "framing": {"strategy": "delimiter", "delimiter_hex": "0a", "delimiter_len": 1}, "index": {"stride": 1, "record_count": 2, "record_offsets": [0, 0]}}"#,
    ];
    for case in cases {
        assert!(RecordIndex::parse(case).is_err(), "case parsed: {case}");
    }
}

#[test]
fn empty_file_builds_empty_index() {
    let strategy = BuiltinFraming::delimiter(b"\n".to_vec()).unwrap();
    let index = build(b"", &strategy, 1);
    assert_eq!(index.record_count, 0);
    assert!(index.offsets.is_empty());
    assert!(plan_partition_boundaries_from_index(&index, 4, 0)
        .unwrap()
        .is_empty());
}

#[test]
fn a_stride_of_zero_is_refused() {
    let strategy = BuiltinFraming::delimiter(b"\n".to_vec()).unwrap();
    let source = SliceSource { data: b"a\n" };
    let error = scan_record_starts(&source, &strategy, 0, 16).unwrap_err();
    assert_eq!(error, SourceError::ZeroStride);
    assert_eq!(error.kind(), ErrorKind::InvalidInput);
}

#[test]
fn a_file_that_changes_is_not_indexed() {
    let before = identify(b"a\nb\n");
    let after = identify(b"a\nc\n");
    let strategy = BuiltinFraming::delimiter(b"\n".to_vec()).unwrap();
    let error = seal_index(
        "data.bin".to_owned(),
        before,
        &after,
        strategy.describe(),
        1,
        2,
        vec![0, 2],
    )
    .unwrap_err();
    assert_eq!(error, SourceError::ChangedWhileIndexing);
}

#[test]
fn indexed_cuts_balance_records() {
    let content = crlf_records(8);
    let strategy = BuiltinFraming::delimiter(b"\r\n".to_vec()).unwrap();
    let index = build(&content, &strategy, 1);
    let ranges = plan_partition_boundaries_from_index(&index, 4, content.len()).unwrap();
    assert_eq!(ranges, vec![(0, 26), (26, 52), (52, 78), (78, 104)]);
}

#[test]
fn indexed_ranges_are_accepted_over_their_bytes() {
    let mut content = Vec::new();
    for payload in [5usize, 0, 13, 2, 2, 7, 1] {
        content.extend_from_slice(&(payload as u16).to_le_bytes());
        content.extend(vec![b'x'; payload]);
    }
    let strategy = BuiltinFraming::length_prefixed(2, true, false).unwrap();
    for stride in 1..4 {
        let index = build(&content, &strategy, stride);
        assert_eq!(index.record_count, 7);
        for parts in 1..9 {
            let ranges =
                plan_partition_boundaries_from_index(&index, parts, content.len()).unwrap();
            assert!(ranges.len() <= parts);
            let plan = plan_from_ranges(
                "data.bin".to_owned(),
                &identify(&content),
                &index.identity,
                strategy.describe(),
                parts,
                IndexReference {
                    stride,
                    record_count: index.record_count,
                    path: None,
                },
                ranges,
            )
            .unwrap();
            assert!(plan.verify_coverage(&content).is_ok());
        }
    }
}

#[test]
fn an_index_in_another_form_is_rewritten_as_the_same_index() {
    let content = crlf_records(4);
    let strategy = BuiltinFraming::delimiter(b"\r\n".to_vec()).unwrap();
    let index = build(&content, &strategy, 2);
    let text = index.to_json();
    let other = text
        .replace('\n', " ")
        .replace("data.bin", "d\\u0061ta.bin");
    assert_ne!(other, text);
    let read = RecordIndex::parse(&other).unwrap();
    assert_eq!(read.to_json(), text);
}

#[test]
fn different_indexes_have_different_texts() {
    let content = crlf_records(4);
    let strategy = BuiltinFraming::delimiter(b"\r\n".to_vec()).unwrap();
    let index = build(&content, &strategy, 2);
    let mut sparser = build(&content, &strategy, 2);
    sparser.stride = 3;
    let mut unordered = build(&content, &strategy, 2);
    unordered.offsets = vec![26, 0];
    let mut none = build(&content, &strategy, 2);
    none.offsets = Vec::new();
    let indexes = [index, sparser, unordered, none];
    for (i, a) in indexes.iter().enumerate() {
        for (j, b) in indexes.iter().enumerate() {
            assert_eq!(a.to_json() == b.to_json(), i == j);
        }
    }
}
