//! Framing strategies and their scanners.

use mmap_chunker_core::error::{ErrorKind, SourceError};
use mmap_chunker_core::framing::{
    BoundaryScanner, BuiltinFraming, FramingDescriptor, FramingStrategy,
};
use mmap_chunker_core::scanner::find_partition_boundaries_pattern;
use mmap_chunker_core::source::{plan_partition_boundaries_with, ByteSource};

fn records(parts: &[&[u8]]) -> Vec<u8> {
    parts.concat()
}

struct SliceLike {
    data: Vec<u8>,
}

impl ByteSource for SliceLike {
    fn len(&self) -> usize {
        self.data.len()
    }

    fn read_at(&self, offset: usize, out: &mut [u8]) -> Result<usize, SourceError> {
        if offset >= self.data.len() || out.is_empty() {
            return Ok(0);
        }
        let n = out.len().min(self.data.len() - offset);
        out[..n].copy_from_slice(&self.data[offset..offset + n]);
        Ok(n)
    }

    fn as_slice(&self) -> Option<&[u8]> {
        None
    }
}

fn collect_boundaries(
    strategy: &BuiltinFraming,
    source: &SliceLike,
    buffer_bytes: usize,
) -> Result<Vec<usize>, SourceError> {
    let mut buffer = vec![0u8; buffer_bytes.max(strategy.minimum_buffer_bytes())];
    let mut scanner = strategy.scanner(&mut buffer);
    let mut boundaries = Vec::new();
    let mut floor = 0usize;
    while let Some(boundary) = scanner.boundary_after(source, floor)? {
        assert!(boundary > floor);
        boundaries.push(boundary);
        floor = boundary;
    }
    Ok(boundaries)
}

#[test]
fn delimiter_framing_yields_pattern_ends() {
    let data = records(&[b"a\r\n", b"bb\r\n", b"ccc\r\n"]);
    let source = SliceLike { data };
    let strategy = BuiltinFraming::delimiter(b"\r\n".to_vec()).unwrap();
    let boundaries = collect_boundaries(&strategy, &source, 4).unwrap();
    assert_eq!(boundaries, vec![3, 7, 12]);
}

#[test]
fn delimiter_framing_matches_slice_scanner() {
    let data = records(&[b"a,", b"cc,d,", b"eee"]);
    let expected = find_partition_boundaries_pattern(&data, 2, b",");
    let source = SliceLike { data };
    let strategy = BuiltinFraming::delimiter(b",".to_vec()).unwrap();
    let boundaries = collect_boundaries(&strategy, &source, 3).unwrap();
    assert_eq!(boundaries, vec![2, 5, 7]);
    let ranges = plan_partition_boundaries_with(&source, 2, &strategy, 3).unwrap();
    assert_eq!(ranges, expected);
}

#[test]
fn fixed_width_boundaries_are_multiples() {
    let data = vec![b'x'; 100];
    let source = SliceLike { data };
    let strategy = BuiltinFraming::fixed_width(32).unwrap();
    let boundaries = collect_boundaries(&strategy, &source, 8).unwrap();
    assert_eq!(boundaries, vec![32, 64, 96]);
}

#[test]
fn fixed_width_partitions_are_record_aligned() {
    let data: Vec<u8> = (0..100u8).collect();
    let source = SliceLike { data };
    let strategy = BuiltinFraming::fixed_width(16).unwrap();
    let ranges = plan_partition_boundaries_with(&source, 4, &strategy, 16).unwrap();
    let mut cursor = 0;
    for (index, (start, end)) in ranges.iter().enumerate() {
        assert_eq!(*start, cursor);
        if index + 1 < ranges.len() {
            assert_eq!(end % 16, 0);
        }
        cursor = *end;
    }
    assert_eq!(cursor, 100);
}

#[test]
fn fixed_width_rejects_zero_record_bytes() {
    assert!(BuiltinFraming::fixed_width(0).is_err());
}

fn length_records(payloads: &[&[u8]], prefix_bytes: u8, little_endian: bool) -> Vec<u8> {
    let mut out = Vec::new();
    for payload in payloads {
        let length = payload.len() as u64;
        let prefix = if little_endian {
            length.to_le_bytes()
        } else {
            length.to_be_bytes()
        };
        out.extend_from_slice(&prefix[..usize::from(prefix_bytes)]);
        out.extend_from_slice(payload);
    }
    out
}

#[test]
fn length_prefixed_scans_across_tiny_buffers() {
    let payloads: &[&[u8]] = &[b"alpha", b"be", b"gamma-payload", b""];
    let data = length_records(payloads, 2, true);
    let source = SliceLike { data: data.clone() };
    let strategy = BuiltinFraming::length_prefixed(2, true, false).unwrap();

    let expected: Vec<usize> = payloads
        .iter()
        .scan(0usize, |cursor, payload| {
            *cursor += 2 + payload.len();
            Some(*cursor)
        })
        .collect();
    assert_eq!(collect_boundaries(&strategy, &source, 3).unwrap(), expected);

    let ranges = plan_partition_boundaries_with(&source, 3, &strategy, 3).unwrap();
    assert_eq!(ranges.last().unwrap().1, data.len());
    assert!(ranges.len() <= 3);
}

#[test]
fn length_prefixed_big_endian_and_includes_prefix() {
    let payloads: &[&[u8]] = &[b"one", b"two", b"three"];
    let mut data = Vec::new();
    for payload in payloads {
        let total = 4 + payload.len() as u32;
        data.extend_from_slice(&total.to_be_bytes());
        data.extend_from_slice(payload);
    }
    let source = SliceLike { data };
    let strategy = BuiltinFraming::length_prefixed(4, false, true).unwrap();
    let boundaries = collect_boundaries(&strategy, &source, 64).unwrap();
    assert_eq!(boundaries, vec![7, 14, 23]);
}

#[test]
fn length_prefixed_rejects_truncated_record() {
    let data = vec![5u8, b'a', b'b'];
    let source = SliceLike { data };
    let strategy = BuiltinFraming::length_prefixed(1, true, false).unwrap();
    let error = collect_boundaries(&strategy, &source, 16).unwrap_err();
    assert_eq!(error.kind(), ErrorKind::InvalidData);
}

#[test]
fn length_prefixed_rejects_invalid_prefix_width() {
    assert!(BuiltinFraming::length_prefixed(0, true, false).is_err());
    assert!(BuiltinFraming::length_prefixed(9, true, false).is_err());
    assert!(BuiltinFraming::length_prefixed(8, true, false).is_ok());
}

#[test]
fn descriptor_round_trips_through_builtin() {
    let strategies = vec![
        BuiltinFraming::delimiter(b"\r\n".to_vec()).unwrap(),
        BuiltinFraming::fixed_width(512).unwrap(),
        BuiltinFraming::length_prefixed(4, false, true).unwrap(),
    ];
    for strategy in strategies {
        let descriptor = strategy.describe();
        let rebuilt = descriptor.try_as_builtin().unwrap().unwrap();
        assert_eq!(rebuilt.describe(), descriptor);
    }

    let custom = FramingDescriptor::Custom {
        name: "varint".to_owned(),
    };
    assert_eq!(custom.strategy_name(), "custom");
    assert!(custom.try_as_builtin().unwrap().is_none());
}

#[test]
fn each_framing_has_a_text() {
    let delimiter = FramingDescriptor::Delimiter {
        delimiter: b"\r\n".to_vec(),
    };
    assert_eq!(delimiter.to_string(), "delimiter(0d0a)");
    let fixed = FramingDescriptor::FixedWidth { record_bytes: 512 };
    assert_eq!(fixed.to_string(), "fixed_width(512)");
    let little = FramingDescriptor::LengthPrefixed {
        prefix_bytes: 2,
        little_endian: true,
        length_includes_prefix: false,
    };
    assert_eq!(
        little.to_string(),
        "length_prefixed(prefix=2, endian=le, includes_prefix=false)"
    );
    let big = FramingDescriptor::LengthPrefixed {
        prefix_bytes: 4,
        little_endian: false,
        length_includes_prefix: true,
    };
    assert_eq!(
        big.to_string(),
        "length_prefixed(prefix=4, endian=be, includes_prefix=true)"
    );
    let custom = FramingDescriptor::Custom {
        name: "varint".to_owned(),
    };
    assert_eq!(custom.to_string(), "custom(varint)");
}

#[test]
fn unusable_parameters_are_named() {
    assert_eq!(
        BuiltinFraming::delimiter(Vec::new()).unwrap_err(),
        SourceError::EmptyDelimiter
    );
    assert_eq!(
        BuiltinFraming::fixed_width(0).unwrap_err(),
        SourceError::ZeroRecordBytes
    );
    assert_eq!(
        BuiltinFraming::length_prefixed(9, true, true).unwrap_err(),
        SourceError::PrefixWidth
    );
    let unusable = FramingDescriptor::FixedWidth { record_bytes: 0 };
    assert_eq!(
        unusable.try_as_builtin().unwrap_err(),
        SourceError::ZeroRecordBytes
    );
}

#[test]
fn broken_prefixes_are_told_apart() {
    let boundary = |data: &[u8], prefix_bytes: u8, includes: bool| {
        let source = SliceLike {
            data: data.to_vec(),
        };
        let strategy = BuiltinFraming::length_prefixed(prefix_bytes, true, includes).unwrap();
        collect_boundaries(&strategy, &source, 8).unwrap_err()
    };
    assert_eq!(boundary(&[7], 2, false), SourceError::TruncatedPrefix);
    assert_eq!(boundary(&[1, 0, 0], 2, true), SourceError::PrefixTooSmall);
    assert_eq!(boundary(&[3, 0], 1, false), SourceError::RecordExceedsFile);
    assert_eq!(
        boundary(&[255; 9], 8, false),
        SourceError::RecordLengthOverflow
    );
}

#[test]
fn a_floor_inside_a_delimiter_gives_the_end_of_that_delimiter() {
    let source = SliceLike {
        data: b"a\r\nb\r\n".to_vec(),
    };
    let strategy = BuiltinFraming::delimiter(b"\r\n".to_vec()).unwrap();
    for (from, expected) in [
        (0, Some(3)),
        (1, Some(3)),
        (2, Some(3)),
        (3, Some(6)),
        (4, Some(6)),
        (5, Some(6)),
        (6, None),
        (9, None),
    ] {
        let mut buffer = [0u8; 8];
        let mut scanner = strategy.scanner(&mut buffer);
        assert_eq!(scanner.boundary_after(&source, from), Ok(expected));
    }
    let mut buffer = [0u8; 2];
    let mut scanner = strategy.scanner(&mut buffer);
    assert_eq!(scanner.boundary_after(&source, 2), Ok(Some(3)));
    assert_eq!(scanner.boundary_after(&source, 5), Ok(Some(6)));
    assert_eq!(scanner.boundary_after(&source, 6), Ok(None));
}

#[test]
fn a_delimiter_does_not_reach_back_over_the_last_boundary() {
    let source = SliceLike {
        data: b"xaaaay".to_vec(),
    };
    let strategy = BuiltinFraming::delimiter(b"aa".to_vec()).unwrap();
    assert_eq!(collect_boundaries(&strategy, &source, 2).unwrap(), vec![3, 5]);
    let mut buffer = [0u8; 4];
    let mut scanner = strategy.scanner(&mut buffer);
    assert_eq!(scanner.boundary_after(&source, 0), Ok(Some(3)));
    assert_eq!(scanner.boundary_after(&source, 3), Ok(Some(5)));
    let mut buffer = [0u8; 4];
    let mut scanner = strategy.scanner(&mut buffer);
    assert_eq!(scanner.boundary_after(&source, 3), Ok(Some(4)));
}

#[test]
fn a_target_inside_a_delimiter_is_cut_after_it() {
    // Six bytes in three parts: the targets are 2, inside the first delimiter,
    // and 4, in front of the second.
    let source = SliceLike {
        data: b"a\r\nb\r\n".to_vec(),
    };
    let strategy = BuiltinFraming::delimiter(b"\r\n".to_vec()).unwrap();
    let ranges = plan_partition_boundaries_with(&source, 3, &strategy, 4).unwrap();
    assert_eq!(ranges, vec![(0, 3), (3, 6)]);
    let slices = find_partition_boundaries_pattern(&source.data, 3, b"\r\n");
    assert_eq!(slices, vec![(0, 6)]);
}
