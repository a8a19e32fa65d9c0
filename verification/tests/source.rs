//! Planning over byte sources of every kind.

use mmap_chunker_core::error::{ErrorKind, SourceError};
use mmap_chunker_core::scanner::{find_partition_boundaries, find_partition_boundaries_pattern};
use mmap_chunker_core::source::{
    find_pattern_from, plan_partition_boundaries, ByteSource, PlannerOptions, SliceSource,
    SourceMode, DEFAULT_SCAN_BUFFER_BYTES, DEFAULT_WINDOW_BYTES, MIN_WINDOW_BYTES,
};

struct DribbleSource {
    data: Vec<u8>,
    max_read: usize,
}

impl ByteSource for DribbleSource {
    fn len(&self) -> usize {
        self.data.len()
    }

    fn read_at(&self, offset: usize, out: &mut [u8]) -> Result<usize, SourceError> {
        if offset >= self.data.len() || out.is_empty() {
            return Ok(0);
        }
        let n = out.len().min(self.max_read).min(self.data.len() - offset);
        out[..n].copy_from_slice(&self.data[offset..offset + n]);
        Ok(n)
    }

    fn as_slice(&self) -> Option<&[u8]> {
        None
    }
}

/// Plan the content the way each mode reaches its bytes: as one slice, through
/// a window, and by reads.
fn plan_in_mode(
    mode: SourceMode,
    content: &[u8],
    parts: usize,
    delimiter: &[u8],
    options: &PlannerOptions,
) -> Vec<(usize, usize)> {
    let buffer = options.scan_buffer_bytes.max(1);
    match mode {
        SourceMode::Mmap => {
            let source = SliceSource { data: content };
            plan_partition_boundaries(&source, parts, delimiter, buffer).unwrap()
        }
        SourceMode::Windowed => {
            let source = DribbleSource {
                data: content.to_vec(),
                max_read: options.window_bytes,
            };
            plan_partition_boundaries(&source, parts, delimiter, buffer).unwrap()
        }
        SourceMode::Pread => {
            let source = DribbleSource {
                data: content.to_vec(),
                max_read: usize::MAX,
            };
            plan_partition_boundaries(&source, parts, delimiter, buffer).unwrap()
        }
    }
}

fn assert_sources_match(
    content: &[u8],
    parts: usize,
    delimiter: &[u8],
    label: &str,
) -> Vec<(usize, usize)> {
    let expected = find_partition_boundaries_pattern(content, parts, delimiter);

    let mmap_source = DribbleSource {
        data: content.to_vec(),
        max_read: usize::MAX,
    };
    let actual = plan_partition_boundaries(&mmap_source, parts, delimiter, 16).unwrap();
    assert_eq!(actual, expected, "{label}: buffered mismatch");
    assert!(actual.len() <= parts.max(1));

    let mut covered = 0usize;
    for &(start, end) in &actual {
        assert_eq!(start, covered, "{label}: gap or overlap");
        assert!(end > start, "{label}: empty range");
        covered = end;
    }
    assert_eq!(covered, content.len(), "{label}: incomplete coverage");
    for (index, &(_, end)) in actual.iter().enumerate() {
        if index + 1 < actual.len() {
            assert_eq!(
                &content[end - delimiter.len()..end],
                delimiter,
                "{label}: range {index} did not end on the delimiter"
            );
        }
    }

    expected
}

#[test]
fn dribble_source_matches_reference_for_patterns() {
    let content = b"a\r\nbb\r\nccc\r\ndddd\r\neeeee\r\nffff\r\n";
    for parts in [1usize, 2, 3, 8, 64] {
        for delimiter in [&b"\n"[..], &b"\r\n"[..], &b"\r\n\r\n"[..]] {
            assert_sources_match(content, parts, delimiter, "dribble");
        }
    }
}

#[test]
fn dribble_source_matches_reference_for_generated_content() {
    let mut content = Vec::new();
    for i in 0..500u32 {
        let len = (i % 23) as usize;
        content.extend(std::iter::repeat(b'a' + (i % 26) as u8).take(len));
        if i % 3 == 0 {
            content.extend_from_slice(b"\r\n");
        } else {
            content.push(b'\n');
        }
    }
    for parts in [1usize, 2, 5, 17, 100, 1000] {
        assert_sources_match(&content, parts, b"\r\n", "generated");
        assert_sources_match(&content, parts, b"\n", "generated-single");
    }
}

#[test]
fn dribble_source_matches_reference_with_tiny_reads() {
    let content = b"a\r\nbb\r\nccc\r\ndddd\r\n";
    for parts in [1usize, 2, 3, 4, 8] {
        for delimiter in [&b"\n"[..], &b"\r\n"[..]] {
            let source = DribbleSource {
                data: content.to_vec(),
                max_read: 1,
            };
            let expected = find_partition_boundaries_pattern(content, parts, delimiter);
            let actual = plan_partition_boundaries(&source, parts, delimiter, 8).unwrap();
            assert_eq!(actual, expected, "tiny-read mismatch for {delimiter:?}");
        }
    }
}

#[test]
fn dribble_source_edge_cases() {
    assert_eq!(
        plan_partition_boundaries(
            &DribbleSource {
                data: Vec::new(),
                max_read: 1
            },
            4,
            b"\r\n",
            8
        )
        .unwrap(),
        Vec::new()
    );
    assert_eq!(
        plan_partition_boundaries(
            &DribbleSource {
                data: b"x".to_vec(),
                max_read: 1
            },
            0,
            b"\r\n",
            8
        )
        .unwrap(),
        Vec::new()
    );
    assert_eq!(
        plan_partition_boundaries(
            &DribbleSource {
                data: b"only record".to_vec(),
                max_read: 2
            },
            8,
            b"\r\n",
            8
        )
        .unwrap(),
        vec![(0, 11)]
    );
}

const MODES: [SourceMode; 3] = [SourceMode::Mmap, SourceMode::Windowed, SourceMode::Pread];

#[test]
fn plan_partition_ranges_all_modes_match_slice_scanner() {
    let content = b"alpha\r\nbeta\r\ngamma\r\ndelta\r\nepsilon\r\n";
    let expected = find_partition_boundaries_pattern(content, 3, b"\r\n");

    for mode in MODES {
        let options = PlannerOptions::new(mode)
            .with_window_bytes(MIN_WINDOW_BYTES)
            .with_scan_buffer_bytes(7);
        let ranges = plan_in_mode(mode, content, 3, b"\r\n", &options);
        assert_eq!(ranges, expected, "mode {mode:?}");
    }
}

#[test]
fn windowed_and_pread_handle_files_larger_than_window() {
    let mut content = Vec::new();
    for i in 0..20_000u32 {
        content.extend_from_slice(format!("record-{i:06}\r\n").as_bytes());
    }
    let expected = find_partition_boundaries_pattern(&content, 7, b"\r\n");

    for mode in [SourceMode::Windowed, SourceMode::Pread] {
        let options = PlannerOptions::new(mode)
            .with_window_bytes(MIN_WINDOW_BYTES)
            .with_scan_buffer_bytes(MIN_WINDOW_BYTES);
        let ranges = plan_in_mode(mode, &content, 7, b"\r\n", &options);
        assert_eq!(ranges, expected, "mode {mode:?}");
    }
}

#[test]
fn plan_partition_ranges_matches_single_byte_scanner() {
    let content = b"a\nb\nc\nd\ne\nf\ng\n";
    let expected = find_partition_boundaries(content, 3, b'\n');

    for mode in MODES {
        let options = PlannerOptions::new(mode).with_window_bytes(MIN_WINDOW_BYTES);
        let ranges = plan_in_mode(mode, content, 3, b"\n", &options);
        assert_eq!(ranges, expected, "mode {mode:?}");
    }
}

#[test]
fn plan_partition_ranges_zero_partitions_is_empty() {
    for mode in MODES {
        let options = PlannerOptions::new(mode);
        let ranges = plan_in_mode(mode, b"a\r\nb\r\n", 0, b"\r\n", &options);
        assert!(ranges.is_empty(), "mode {mode:?}");
    }
}

#[test]
fn plan_partition_ranges_empty_file_is_empty() {
    for mode in MODES {
        let options = PlannerOptions::new(mode).with_window_bytes(MIN_WINDOW_BYTES);
        let ranges = plan_in_mode(mode, b"", 8, b"\r\n", &options);
        assert!(ranges.is_empty(), "mode {mode:?}");
    }
}

#[test]
fn a_pattern_across_two_reads_is_found() {
    let source = DribbleSource {
        data: b"aaaXYZbbbXYZ".to_vec(),
        max_read: 1,
    };
    let mut buffer = [0u8; 4];
    assert_eq!(find_pattern_from(&source, 0, b"XYZ", &mut buffer), Ok(Some(3)));
    assert_eq!(find_pattern_from(&source, 4, b"XYZ", &mut buffer), Ok(Some(9)));
    assert_eq!(find_pattern_from(&source, 10, b"XYZ", &mut buffer), Ok(None));
}

struct BrokenSource;

impl ByteSource for BrokenSource {
    fn len(&self) -> usize {
        10
    }

    fn read_at(&self, _offset: usize, _out: &mut [u8]) -> Result<usize, SourceError> {
        Err(SourceError::Read {
            kind: ErrorKind::NotFound,
            message: "gone".to_owned(),
        })
    }

    fn as_slice(&self) -> Option<&[u8]> {
        None
    }
}

#[test]
fn a_failing_read_fails_the_plan() {
    let error = plan_partition_boundaries(&BrokenSource, 2, b"\n", 4).unwrap_err();
    assert_eq!(
        error,
        SourceError::Read {
            kind: ErrorKind::NotFound,
            message: "gone".to_owned(),
        }
    );
    assert_eq!(error.kind(), ErrorKind::NotFound);
    assert_eq!(error.message(), "gone");
    assert_eq!(error.message(), "gone");
    assert!(plan_partition_boundaries(&BrokenSource, 1, b"\n", 4).is_ok());
}

#[test]
fn options_start_from_defaults() {
    let options = PlannerOptions::default();
    assert_eq!(options.mode, SourceMode::Mmap);
    assert_eq!(options.window_bytes, DEFAULT_WINDOW_BYTES);
    assert_eq!(options.scan_buffer_bytes, DEFAULT_SCAN_BUFFER_BYTES);
    assert_eq!(DEFAULT_WINDOW_BYTES, 67_108_864);
    assert_eq!(DEFAULT_SCAN_BUFFER_BYTES, 1_048_576);
    assert_eq!(MIN_WINDOW_BYTES, 65_536);
    let changed = PlannerOptions::new(SourceMode::Pread)
        .with_window_bytes(1)
        .with_scan_buffer_bytes(2);
    assert_eq!(changed.mode, SourceMode::Pread);
    assert_eq!(changed.window_bytes, 1);
    assert_eq!(changed.scan_buffer_bytes, 2);
}

#[test]
fn modes_have_names() {
    assert_eq!(SourceMode::Mmap.as_str(), "mmap");
    assert_eq!(SourceMode::Windowed.as_str(), "windowed");
    assert_eq!(SourceMode::Pread.as_str(), "pread");
}
