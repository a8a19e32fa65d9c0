//! Range plans: identity, text, reading back and coverage.

use mmap_chunker_core::coverage::CoverageKind;
use mmap_chunker_core::error::{ErrorKind, SourceError};
use mmap_chunker_core::framing::{BuiltinFraming, FramingDescriptor, FramingStrategy};
use mmap_chunker_core::identity::{
    fingerprint_bytes, sample_fingerprint, FileIdentity, IDENTITY_SAMPLE_BYTES,
};
use mmap_chunker_core::manifest::{plan_from_ranges, seal_plan, IndexReference, RangePlan};
use mmap_chunker_core::reader::{ManifestErrorKind, MAX_MANIFEST_BYTES, MAX_MANIFEST_RANGES};
use mmap_chunker_core::scanner::find_partition_boundaries_pattern;
use mmap_chunker_core::source::{
    plan_partition_boundaries_with, SliceSource, SourceMode, DEFAULT_SCAN_BUFFER_BYTES,
};

fn identify(content: &[u8]) -> FileIdentity {
    let source = SliceSource { data: content };
    FileIdentity {
        size: content.len() as u64,
        modified_unix_nanos: Some(1_790_008_126_888_781_900),
        device: Some(7),
        inode: Some(42),
        sample_fingerprint: Some(sample_fingerprint(&source).unwrap()),
        sample_bytes: IDENTITY_SAMPLE_BYTES,
    }
}

fn plan_with_framing(
    content: &[u8],
    parts: usize,
    strategy: &BuiltinFraming,
    mode: SourceMode,
    window_bytes: usize,
) -> Result<RangePlan, SourceError> {
    let identity = identify(content);
    let source = SliceSource { data: content };
    let ranges =
        plan_partition_boundaries_with(&source, parts, strategy, DEFAULT_SCAN_BUFFER_BYTES)?;
    seal_plan(
        "data.bin".to_owned(),
        identity.duplicate(),
        &identity,
        strategy.describe(),
        parts,
        mode,
        window_bytes,
        ranges,
    )
}

fn plan(
    content: &[u8],
    parts: usize,
    delimiter: &[u8],
    mode: SourceMode,
    window_bytes: usize,
) -> Result<RangePlan, SourceError> {
    let strategy = BuiltinFraming::delimiter(delimiter.to_vec())?;
    plan_with_framing(content, parts, &strategy, mode, window_bytes)
}

#[test]
fn identify_file_reports_size_and_fingerprint() {
    let content = b"alpha\r\nbeta\r\ngamma\r\n";
    let identity = identify(content);
    assert_eq!(identity.size, content.len() as u64);
    assert!(identity.modified_unix_nanos.is_some());
    let fingerprint = identity.sample_fingerprint.unwrap();
    assert!(fingerprint.starts_with("fnv1a64:0x"));
    assert_eq!(identity.sample_bytes, IDENTITY_SAMPLE_BYTES);
}

#[test]
fn fingerprint_is_deterministic_and_content_sensitive() {
    let first_identity = identify(b"same size content!!!");
    let second_identity = identify(b"same size content???");
    let third_identity = identify(b"same size content!!!");

    assert_eq!(
        first_identity.sample_fingerprint,
        third_identity.sample_fingerprint
    );
    assert_ne!(
        first_identity.sample_fingerprint,
        second_identity.sample_fingerprint
    );
}

#[test]
fn fingerprint_handles_files_smaller_than_two_samples() {
    let identity = identify(b"tiny");
    assert!(identity.sample_fingerprint.is_some());
}

#[test]
fn fingerprint_reads_head_and_tail_around_the_sample_limit() {
    let mut content = vec![b'a'; IDENTITY_SAMPLE_BYTES * 3];
    content[0] = b'X';
    content[IDENTITY_SAMPLE_BYTES * 3 - 1] = b'Y';

    let identity = identify(&content);
    let baseline = identity.sample_fingerprint.clone().unwrap();

    // Change a byte in the middle: outside both samples, so the
    // fingerprint intentionally stays the same.
    content[IDENTITY_SAMPLE_BYTES + IDENTITY_SAMPLE_BYTES / 2] = b'Z';
    let middle_changed = identify(&content);
    assert_eq!(baseline, middle_changed.sample_fingerprint.unwrap());

    // Change the first byte: inside the head sample.
    content[0] = b'Q';
    let head_changed = identify(&content);
    assert_ne!(baseline, head_changed.sample_fingerprint.unwrap());
}

#[test]
fn plan_file_matches_slice_scanner_and_seals_identity() {
    let mut content = Vec::new();
    for index in 0..400u32 {
        content.extend_from_slice(format!("record-{index:04}\r\n").as_bytes());
    }
    let expected = find_partition_boundaries_pattern(&content, 5, b"\r\n");

    let plan = plan(&content, 5, b"\r\n", SourceMode::Mmap, 0).unwrap();
    assert_eq!(plan.ranges, expected);
    assert_eq!(plan.source_size, content.len() as u64);
    assert_eq!(plan.requested_partitions, 5);
    assert_eq!(plan.source_mode, Some(SourceMode::Mmap));
    assert_eq!(plan.window_bytes, None);
    assert_eq!(
        plan.framing,
        FramingDescriptor::Delimiter {
            delimiter: b"\r\n".to_vec()
        }
    );
    assert_eq!(plan.identity, identify(&content));
    assert_eq!(plan.index, None);
}

#[test]
fn plan_file_windowed_records_window_bytes() {
    let content = b"a\r\nb\r\nc\r\nd\r\n";
    let window = 65536usize;
    let plan = plan(content, 2, b"\r\n", SourceMode::Windowed, window).unwrap();
    assert_eq!(plan.window_bytes, Some(window));
    assert_eq!(plan.ranges, vec![(0, 9), (9, 12)]);
}

#[test]
fn plan_json_contains_schema_identity_framing_and_ranges() {
    let plan = plan(b"one\r\ntwo\r\nthree\r\n", 2, b"\r\n", SourceMode::Mmap, 0).unwrap();
    let json = plan.to_json();

    assert!(json.contains("\"schema\": \"mmap-chunker-plan\""));
    assert!(json.contains("\"schema_version\": 1"));
    assert!(json.contains("\"name\": \"mmap-chunker-core\""));
    assert!(json.contains("\"delimiter_hex\": \"0d0a\""));
    assert!(json.contains("\"delimiter_len\": 2"));
    assert!(json.contains("\"strategy\": \"bytes\""));
    assert!(json.contains("\"source_mode\": \"mmap\""));
    assert!(json.contains("\"window_bytes\": null"));
    assert!(json.contains("\"requested_partitions\": 2"));
    assert!(json.contains("\"actual_partitions\": 2"));
    assert!(json.contains(&format!("\"size\": {}", "one\r\ntwo\r\nthree\r\n".len())));
    assert!(json.contains("\"sample_fingerprint\": \"fnv1a64:0x"));
    assert!(json.contains("\"index\": 0"));
    assert!(json.contains("\"index\": 1"));
    assert!(json.contains("\"length\": 10"));
    assert!(json.contains("\"length\": 7"));

    // Deterministic: same plan -> byte-identical JSON.
    assert_eq!(json, plan.to_json());
}

#[test]
fn json_escapes_special_characters_in_paths() {
    let mut identity = FileIdentity {
        size: 0,
        modified_unix_nanos: None,
        device: None,
        inode: None,
        sample_fingerprint: None,
        sample_bytes: IDENTITY_SAMPLE_BYTES,
    };
    identity.sample_fingerprint = Some("fnv1a64:0x0000000000000000".to_owned());
    let plan = RangePlan {
        source_path: "C:\\data\\\"quoted\"\nline.jsonl".to_owned(),
        source_size: 0,
        identity,
        framing: FramingDescriptor::Delimiter {
            delimiter: b"\n".to_vec(),
        },
        requested_partitions: 1,
        source_mode: Some(SourceMode::Pread),
        window_bytes: None,
        index: None,
        ranges: Vec::new(),
    };

    let json = plan.to_json();
    assert!(json.contains("C:\\\\data\\\\\\\"quoted\\\"\\nline.jsonl"));
    assert!(json.contains("\"ranges\": []"));
    assert!(json.contains("\"source_mode\": \"pread\""));
}

#[test]
fn plan_file_rejects_empty_delimiter() {
    let error = plan(b"data", 2, b"", SourceMode::Mmap, 0).unwrap_err();
    assert_eq!(error.kind(), ErrorKind::InvalidInput);
}

#[test]
fn plan_file_fixed_width_framing() {
    let content: Vec<u8> = (0..100u8).collect();
    let strategy = BuiltinFraming::fixed_width(16).unwrap();
    let plan = plan_with_framing(&content, 4, &strategy, SourceMode::Mmap, 0).unwrap();

    assert_eq!(
        plan.framing,
        FramingDescriptor::FixedWidth { record_bytes: 16 }
    );
    assert_eq!(plan.ranges, vec![(0, 32), (32, 64), (64, 80), (80, 100)]);
    let json = plan.to_json();
    assert!(json.contains("\"strategy\": \"fixed_width\""));
    assert!(json.contains("\"record_bytes\": 16"));
}

#[test]
fn plan_file_length_prefixed_framing() {
    let payloads: &[&[u8]] = &[b"alpha", b"be", b"gamma-payload", b""];
    let mut content = Vec::new();
    for payload in payloads {
        content.extend_from_slice(&(payload.len() as u16).to_le_bytes());
        content.extend_from_slice(payload);
    }
    let strategy = BuiltinFraming::length_prefixed(2, true, false).unwrap();
    let plan = plan_with_framing(&content, 2, &strategy, SourceMode::Pread, 0).unwrap();

    assert_eq!(
        plan.framing,
        FramingDescriptor::LengthPrefixed {
            prefix_bytes: 2,
            little_endian: true,
            length_includes_prefix: false,
        }
    );
    assert_eq!(plan.ranges, vec![(0, 26), (26, 28)]);
    assert_eq!(plan.source_mode, Some(SourceMode::Pread));

    let json = plan.to_json();
    assert!(json.contains("\"strategy\": \"length_prefixed\""));
    assert!(json.contains("\"prefix_bytes\": 2"));
    assert!(json.contains("\"little_endian\": true"));
    assert!(json.contains("\"length_includes_prefix\": false"));
}

#[test]
fn plan_from_ranges_seals_identity_and_records_index_reference() {
    let content: Vec<u8> = (0..64u8).collect();
    let identity = identify(&content);
    let plan = plan_from_ranges(
        "data.bin".to_owned(),
        &identify(&content),
        &identity,
        FramingDescriptor::FixedWidth { record_bytes: 16 },
        2,
        IndexReference {
            stride: 4,
            record_count: 4,
            path: Some("data.bin.mmapidx".to_owned()),
        },
        vec![(0, 32), (32, 64)],
    )
    .unwrap();

    assert_eq!(plan.source_mode, None);
    assert_eq!(plan.index.as_ref().unwrap().stride, 4);
    let json = plan.to_json();
    assert!(json.contains("\"strategy\": \"indexed_records\""));
    assert!(json.contains("\"source_mode\": null"));
    assert!(json.contains("\"record_count\": 4"));
    assert!(json.contains("\"path\": \"data.bin.mmapidx\""));

    let mut tampered = identity.clone();
    tampered.size += 1;
    let error = plan_from_ranges(
        "data.bin".to_owned(),
        &identify(&content),
        &tampered,
        FramingDescriptor::FixedWidth { record_bytes: 16 },
        2,
        IndexReference {
            stride: 4,
            record_count: 4,
            path: None,
        },
        vec![(0, 64)],
    )
    .unwrap_err();
    assert_eq!(error, SourceError::IdentityMismatch);
}

#[test]
fn canonical_bytes_are_deterministic_for_equal_plans() {
    let plan = RangePlan {
        source_path: "data.bin".to_owned(),
        source_size: 8,
        identity: FileIdentity {
            size: 8,
            modified_unix_nanos: None,
            device: None,
            inode: None,
            sample_fingerprint: Some("fnv1a64:0x0000000000000000".to_owned()),
            sample_bytes: IDENTITY_SAMPLE_BYTES,
        },
        framing: FramingDescriptor::Delimiter {
            delimiter: b"\n".to_vec(),
        },
        requested_partitions: 2,
        source_mode: Some(SourceMode::Pread),
        window_bytes: None,
        index: None,
        ranges: vec![(0, 4), (4, 8)],
    };

    assert_eq!(plan.canonical_bytes(), plan.to_json().into_bytes());
    assert_eq!(
        plan.canonical_bytes(),
        plan.clone().canonical_bytes(),
        "equal plans must canonicalize to identical bytes"
    );
}

#[test]
fn fingerprints_are_exact() {
    // FNV-1a over the size as eight little-endian bytes, the head and the tail.
    let mut hash = 0xcbf2_9ce4_8422_2325u64;
    for byte in 3u64.to_le_bytes().iter().chain(b"ab").chain(b"c") {
        hash = (hash ^ u64::from(*byte)).wrapping_mul(0x0000_0100_0000_01b3);
    }
    assert_eq!(
        fingerprint_bytes(3, b"ab", b"c"),
        format!("fnv1a64:0x{hash:016x}")
    );
}

#[test]
fn a_file_that_changes_is_not_planned() {
    let error = seal_plan(
        "data.bin".to_owned(),
        identify(b"a\n"),
        &identify(b"b\n"),
        FramingDescriptor::FixedWidth { record_bytes: 1 },
        1,
        SourceMode::Mmap,
        0,
        vec![(0, 2)],
    )
    .unwrap_err();
    assert_eq!(error, SourceError::ChangedWhilePlanning);
}

#[test]
fn plans_are_read_back_as_they_were() {
    let content: Vec<u8> = (0..100u8).collect();
    let strategies = vec![
        BuiltinFraming::delimiter(vec![50]).unwrap(),
        BuiltinFraming::fixed_width(16).unwrap(),
    ];
    for strategy in strategies {
        let plan =
            plan_with_framing(&content, 4, &strategy, SourceMode::Windowed, 65536).unwrap();
        let text = plan.to_json();
        let read = RangePlan::from_json(&text).unwrap();
        assert_eq!(read, plan);
        assert_eq!(read.to_json(), text);
        assert!(read.verify_coverage(&content).is_ok());
    }
}

fn refusal(text: &str) -> ManifestErrorKind {
    RangePlan::from_json(text).unwrap_err().kind
}

#[test]
fn each_refusal_has_its_kind() {
    let good = plan(b"a\nb\n", 2, b"\n", SourceMode::Mmap, 0).unwrap().to_json();
    assert!(RangePlan::from_json(&good).is_ok());
    assert_eq!(refusal("{"), ManifestErrorKind::InvalidJson);
    assert_eq!(refusal("{}"), ManifestErrorKind::InvalidSchema);
    assert_eq!(
        refusal(&good.replace("\"schema_version\": 1", "\"schema_version\": 2")),
        ManifestErrorKind::UnsupportedVersion
    );
    assert_eq!(
        refusal(&" ".repeat(MAX_MANIFEST_BYTES + 1)),
        ManifestErrorKind::TooLarge
    );
    assert_eq!(MAX_MANIFEST_RANGES, 1_000_000);
    assert_eq!(ManifestErrorKind::TooLarge.as_str(), "too_large");
    assert_eq!(ManifestErrorKind::TooManyRanges.as_str(), "too_many_ranges");
    let error = RangePlan::from_json("{").unwrap_err();
    assert!(error.to_string().starts_with("invalid manifest (invalid_json): "));
}

#[test]
fn a_name_that_occurs_twice_is_refused() {
    let good = plan(b"a\nb\n", 2, b"\n", SourceMode::Mmap, 0).unwrap().to_json();
    let twice = good.replace(
        "\"schema_version\": 1",
        "\"schema_version\": 1, \"schema_version\": 1",
    );
    assert_eq!(refusal(&twice), ManifestErrorKind::InvalidSchema);
}

fn plan_of(ranges: Vec<(usize, usize)>, size: u64) -> RangePlan {
    let identity = FileIdentity {
        size,
        modified_unix_nanos: None,
        device: None,
        inode: None,
        sample_fingerprint: None,
        sample_bytes: 0,
    };
    RangePlan {
        source_path: "data.bin".to_owned(),
        source_size: size,
        identity,
        framing: FramingDescriptor::Delimiter {
            delimiter: b"\n".to_vec(),
        },
        requested_partitions: 4,
        source_mode: Some(SourceMode::Mmap),
        window_bytes: None,
        index: None,
        ranges,
    }
}

fn fault(ranges: Vec<(usize, usize)>, data: &[u8]) -> CoverageKind {
    plan_of(ranges, data.len() as u64)
        .verify_coverage(data)
        .unwrap_err()
        .kind
}

#[test]
fn each_coverage_fault_has_its_kind() {
    let data = b"ab\ncd\nef\n";
    assert!(plan_of(vec![(0, 3), (3, 9)], 9).verify_coverage(data).is_ok());
    assert!(plan_of(Vec::new(), 0).verify_coverage(b"").is_ok());
    assert_eq!(
        plan_of(vec![(0, 9)], 8).verify_coverage(data).unwrap_err().kind,
        CoverageKind::SizeMismatch
    );
    assert_eq!(fault(Vec::new(), data), CoverageKind::EmptyPlan);
    assert_eq!(fault(vec![(3, 3)], data), CoverageKind::InvertedRange);
    assert_eq!(fault(vec![(3, 9)], data), CoverageKind::BadStart);
    assert_eq!(fault(vec![(0, 6)], data), CoverageKind::BadEnd);
    assert_eq!(fault(vec![(0, 3), (6, 9)], data), CoverageKind::Gap);
    assert_eq!(fault(vec![(0, 6), (3, 9)], data), CoverageKind::Overlap);
    assert_eq!(fault(vec![(0, 4), (4, 9)], data), CoverageKind::Misaligned);
    assert_eq!(fault(vec![(0, 6), (6, 9), (3, 9)], data), CoverageKind::Unsorted);
    let mut broken = plan_of(vec![(0, 2), (2, 4)], 4);
    broken.framing = FramingDescriptor::LengthPrefixed {
        prefix_bytes: 1,
        little_endian: true,
        length_includes_prefix: false,
    };
    assert_eq!(
        broken.verify_coverage(&[9, 9, 9, 9]).unwrap_err().kind,
        CoverageKind::Boundary
    );
    broken.framing = FramingDescriptor::FixedWidth { record_bytes: 0 };
    assert_eq!(
        broken.verify_coverage(&[9, 9, 9, 9]).unwrap_err().kind,
        CoverageKind::InvalidFraming
    );
    assert_eq!(CoverageKind::Gap.as_str(), "gap");
    let error = plan_of(vec![(0, 6)], 9).verify_coverage(data).unwrap_err();
    assert!(error.to_string().starts_with("coverage bad_end: "));
}

#[test]
fn what_a_plan_does_not_hold_has_no_say_in_it() {
    let plan = plan_of(vec![(0, 3), (3, 9)], 9);
    let text = plan.to_json();
    let read = RangePlan::from_json(&text).unwrap();
    assert_eq!(read, plan);

    let spaced = text.replace('\n', "\r\n\t ").replace(": ", " :  ");
    assert_eq!(RangePlan::from_json(&spaced).unwrap(), plan);

    let other = text
        .replace("\"mmap-chunker-core\"", "\"something else\"")
        .replace("\"strategy\": \"bytes\"", "\"strategy\": 17")
        .replace("    \"actual_partitions\": 2,\n", "    \"later\": [{}],\n")
        .replace(
            "\"start\": 0, \"end\": 3, \"length\": 3",
            "\"length\": 3, \"end\": 3, \"note\": null, \"start\": 0",
        )
        .replace(
            "\"schema\": \"mmap-chunker-plan\",\n  \"schema_version\": 1,",
            "\"schema_version\": 1, \"extra\": {}, \"schema\": \"mmap-chunker-plan\",",
        );
    assert_ne!(other, text);
    assert!(!other.contains("actual_partitions"));
    assert!(other.contains("\"note\": null"));
    assert!(other.contains("\"extra\": {}"));
    assert_eq!(RangePlan::from_json(&other).unwrap(), plan);
}

#[test]
fn different_plans_have_different_texts() {
    let mut plans = vec![
        plan_of(vec![(0, 3), (3, 9)], 9),
        plan_of(vec![(0, 9)], 9),
        plan_of(vec![(0, 9), (3, 3)], 9),
        plan_of(vec![(0, 90)], 9),
        plan_of(Vec::new(), 9),
    ];
    let mut unusable = plan_of(Vec::new(), 9);
    unusable.framing = FramingDescriptor::Delimiter {
        delimiter: Vec::new(),
    };
    plans.push(unusable);
    let mut zero = plan_of(Vec::new(), 9);
    zero.framing = FramingDescriptor::FixedWidth { record_bytes: 0 };
    plans.push(zero);
    for (i, a) in plans.iter().enumerate() {
        for (j, b) in plans.iter().enumerate() {
            assert_eq!(a.to_json() == b.to_json(), i == j);
            assert_eq!(a == b, i == j);
        }
    }
}
