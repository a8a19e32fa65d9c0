//! Chunks, cursors, fixed layouts and partitions of slices.

use mmap_chunker_core::scanner::{
    find_chunk_boundaries, find_chunk_boundaries_pattern, find_partition_boundaries,
    fixed_chunk_bounds, fixed_chunk_count, ChunkCursor, PatternChunkCursor,
};

#[test]
fn test_empty_input() {
    assert_eq!(find_chunk_boundaries(b"", 1024, b'\n'), vec![]);
}

#[test]
fn test_smaller_than_chunk() {
    let data = b"hello\nworld\n";
    let chunks = find_chunk_boundaries(data, 1024, b'\n');
    assert_eq!(chunks, vec![(0, 12)]);
}

#[test]
fn test_fixed_lines() {
    let data = b"aaa\nbbb\nccc\nddd\neee\n";
    let chunks = find_chunk_boundaries(data, 6, b'\n');
    assert_eq!(chunks.len(), 3);
    assert_eq!(&data[chunks[0].0..chunks[0].1], b"aaa\nbbb\n");
    assert_eq!(&data[chunks[1].0..chunks[1].1], b"ccc\nddd\n");
    assert_eq!(&data[chunks[2].0..chunks[2].1], b"eee\n");
}

#[test]
fn test_no_delimiter_in_large_remainder() {
    let data = b"aaa\nbbb\ncccccccccccccccc";
    let chunks = find_chunk_boundaries(data, 4, b'\n');
    assert_eq!(chunks.len(), 2);
    assert_eq!(chunks[0], (0, 4 + 3 + 1)); // 0..8 = "aaa\nbbb\n"
    assert_eq!(chunks[1], (8, data.len()));
}

#[test]
fn test_no_delimiter() {
    let data = b"no_newlines_here";
    let chunks = find_chunk_boundaries(data, 5, b'\n');
    assert_eq!(chunks, vec![(0, data.len())]);
}

#[test]
fn test_sequential_coverage() {
    let data = b"line1\nline2\nline3\nline4\nline5\n";
    let chunks = find_chunk_boundaries(data, 10, b'\n');
    let mut pos = 0;
    for (start, end) in &chunks {
        assert_eq!(*start, pos);
        pos = *end;
    }
    assert_eq!(pos, data.len());
}

#[test]
fn test_chunk_size_zero_clamps_to_one() {
    let data = b"abc\n";
    let chunks = find_chunk_boundaries(data, 0, b'\n');
    assert!(!chunks.is_empty());
}

#[test]
fn test_chunk_size_one() {
    let data = b"a\nb\nc\n";
    let chunks = find_chunk_boundaries(data, 1, b'\n');
    let mut pos = 0;
    for (start, end) in &chunks {
        assert_eq!(*start, pos);
        assert!(end > start);
        pos = *end;
    }
    assert_eq!(pos, data.len());
}

#[test]
fn test_no_trailing_newline() {
    let data = b"hello\nworld";
    let chunks = find_chunk_boundaries(data, 100, b'\n');
    assert_eq!(chunks, vec![(0, 11)]);
}

#[test]
fn test_only_newlines() {
    let data = b"\n\n\n";
    let chunks = find_chunk_boundaries(data, 1, b'\n');
    let mut pos = 0;
    for (start, end) in &chunks {
        assert_eq!(*start, pos);
        pos = *end;
    }
    assert_eq!(pos, data.len());
}

#[test]
fn test_consecutive_delimiters() {
    let data = b"line1\n\n\nline2\n";
    let chunks = find_chunk_boundaries(data, 6, b'\n');
    let mut pos = 0;
    for (start, end) in &chunks {
        assert_eq!(*start, pos);
        pos = *end;
    }
    assert_eq!(pos, data.len());
}

#[test]
fn test_record_larger_than_chunk() {
    let data = b"short\nverylonglinewithnoddelimiteratall\nshort\n";
    let chunks = find_chunk_boundaries(data, 6, b'\n');
    let mut pos = 0;
    for (start, end) in &chunks {
        assert_eq!(*start, pos);
        pos = *end;
    }
    assert_eq!(pos, data.len());
}

#[test]
fn test_binary_with_nul() {
    let data = b"prefix\x00suffix\n";
    let chunks = find_chunk_boundaries(data, 100, b'\n');
    assert_eq!(chunks, vec![(0, 14)]);
}

#[test]
fn test_chunk_size_larger_than_data() {
    let data = b"tiny\n";
    let chunks = find_chunk_boundaries(data, 1_000_000, b'\n');
    assert_eq!(chunks, vec![(0, 5)]);
}

#[test]
fn test_chunk_size_exact_multiple() {
    let data = b"xxxx\n";
    let chunks = find_chunk_boundaries(data, 5, b'\n');
    assert_eq!(chunks, vec![(0, 5)]);
}

#[test]
fn test_repeated_scan_same_size() {
    let data = b"a\nb\nc\n";
    let chunks1 = find_chunk_boundaries(data, 2, b'\n');
    let chunks2 = find_chunk_boundaries(data, 2, b'\n');
    assert_eq!(chunks1, chunks2);
}

#[test]
fn test_repeated_scan_different_size() {
    let data = b"aaa\nbbb\nccc\nddd\n";
    let chunks1 = find_chunk_boundaries(data, 4, b'\n');
    let chunks2 = find_chunk_boundaries(data, 8, b'\n');
    assert_ne!(chunks1, chunks2);
    let sum1: usize = chunks1.iter().map(|(s, e)| e - s).sum();
    let sum2: usize = chunks2.iter().map(|(s, e)| e - s).sum();
    assert_eq!(sum1, data.len());
    assert_eq!(sum2, data.len());
}

#[test]
fn test_one_byte_file() {
    let data = b"x";
    let chunks = find_chunk_boundaries(data, 1024, b'\n');
    assert_eq!(chunks, vec![(0, 1)]);
}

#[test]
fn test_one_byte_newline() {
    let data = b"\n";
    let chunks = find_chunk_boundaries(data, 1024, b'\n');
    assert_eq!(chunks, vec![(0, 1)]);
}

#[test]
fn property_concatenation_equals_input() {
    let cases: &[(&[u8], usize, u8)] = &[
        (b"hello\nworld\n", 4, b'\n'),
        (b"a,b,c,d", 2, b','),
        (b"one\ttwo\tthree", 4, b'\t'),
        (b"a|b|c|d|e|f", 3, b'|'),
        (b"x\x00y\x00z", 2, b'\x00'),
        (b"single", 1024, b'\n'),
        (b"\n\n\n\n\n", 1, b'\n'),
        (b"", 1024, b'\n'),
        (b"\n", 1, b'\n'),
        (b"a", 1024, b'\n'),
    ];
    for &(data, chunk_size, delim) in cases {
        let chunks = find_chunk_boundaries(data, chunk_size, delim);
        let total: usize = chunks.iter().map(|(s, e)| e - s).sum();
        assert_eq!(total, data.len(), "concatenation property failed");
    }
}

#[test]
fn property_no_gaps() {
    let cases: &[(&[u8], usize, u8)] = &[
        (b"a\nb\nc\n", 2, b'\n'),
        (b"a,b,c,d,e", 1, b','),
        (b"a\tb\tc\t", 2, b'\t'),
    ];
    for &(data, chunk_size, delim) in cases {
        let chunks = find_chunk_boundaries(data, chunk_size, delim);
        if chunks.is_empty() {
            continue;
        }
        assert_eq!(chunks[0].0, 0, "first chunk must start at 0");
        for i in 1..chunks.len() {
            assert_eq!(
                chunks[i].0,
                chunks[i - 1].1,
                "gap at chunk {}->{}",
                i - 1,
                i
            );
        }
        assert_eq!(
            chunks.last().unwrap().1,
            data.len(),
            "last chunk must end at EOF"
        );
    }
}

#[test]
fn property_determinism() {
    let data = b"line1\nline2\nline3\nline4\nline5\n";
    let chunks1 = find_chunk_boundaries(data, 10, b'\n');
    let chunks2 = find_chunk_boundaries(data, 10, b'\n');
    assert_eq!(chunks1, chunks2);
    let chunks3 = find_chunk_boundaries(data, 10, b'\n');
    assert_eq!(chunks1, chunks3);
}

#[test]
fn property_monotonic_offsets() {
    let data = b"x\nxx\nxxx\nxxxx\nxxxxx\n";
    let chunks = find_chunk_boundaries(data, 1, b'\n');
    let mut last_end = 0usize;
    for (start, end) in &chunks {
        assert!(*start >= last_end, "offsets must be monotonic");
        assert!(*end > *start, "chunk must be non-empty");
        last_end = *end;
    }
}

#[test]
fn test_alternative_delimiters() {
    assert_eq!(
        find_chunk_boundaries(b"a,b,c,d,e", 2, b','),
        vec![(0, 4), (4, 8), (8, 9)]
    );
    assert_eq!(
        find_chunk_boundaries(b"one\ttwo\tthree", 4, b'\t'),
        vec![(0, 8), (8, 13)]
    );
    assert_eq!(
        find_chunk_boundaries(b"a|b|c|d|e|f", 3, b'|'),
        vec![(0, 4), (4, 8), (8, 11)]
    );
    assert_eq!(
        find_chunk_boundaries(b"x\x00y\x00z", 2, b'\x00'),
        vec![(0, 4), (4, 5)]
    );
}

// ChunkCursor tests

/// Verify cursor produces identical chunks as eager scanner.
fn cursor_equals_eager(data: &[u8], chunk_size: usize, delimiter: u8) {
    let eager = find_chunk_boundaries(data, chunk_size, delimiter);
    let cursor: Vec<&[u8]> = ChunkCursor::new(data, chunk_size, delimiter).collect();
    let lazy_ranges: Vec<(usize, usize)> = cursor
        .iter()
        .scan(0usize, |pos, &chunk| {
            let start = *pos;
            *pos += chunk.len();
            Some((start, *pos))
        })
        .collect();
    assert_eq!(
        lazy_ranges, eager,
        "cursor mismatch: chunk_size={chunk_size}, delim={delimiter:#04x}"
    );
}

#[test]
fn cursor_empty_input() {
    assert_eq!(
        ChunkCursor::new(b"", 1024, b'\n').collect(),
        Vec::<&[u8]>::new()
    );
}

#[test]
fn cursor_one_byte_file() {
    cursor_equals_eager(b"x", 1024, b'\n');
}

#[test]
fn cursor_one_byte_delimiter() {
    cursor_equals_eager(b"\n", 1024, b'\n');
}

#[test]
fn cursor_delimiter_only_file() {
    cursor_equals_eager(b"\n\n\n", 1, b'\n');
}

#[test]
fn cursor_no_delimiter() {
    cursor_equals_eager(b"no_newlines_here", 5, b'\n');
}

#[test]
fn cursor_delimiter_exactly_at_target() {
    cursor_equals_eager(b"xxxx\n", 5, b'\n');
}

#[test]
fn cursor_delimiter_after_target() {
    cursor_equals_eager(b"xxxyy\n", 3, b'\n');
}

#[test]
fn cursor_multiple_consecutive_delimiters() {
    cursor_equals_eager(b"line1\n\n\nline2\n", 6, b'\n');
}

#[test]
fn cursor_nul_delimiter() {
    cursor_equals_eager(b"prefix\x00suffix\n", 100, b'\n');
}

#[test]
fn cursor_giant_record() {
    cursor_equals_eager(b"tiny\nverylongrecordwithnobreaksanywhere\nend\n", 6, b'\n');
}

#[test]
fn cursor_no_trailing_delimiter() {
    cursor_equals_eager(b"hello\nworld", 100, b'\n');
}

#[test]
fn cursor_chunk_size_zero() {
    cursor_equals_eager(b"abc\n", 0, b'\n');
}

#[test]
fn cursor_chunk_size_one() {
    cursor_equals_eager(b"a\nb\nc\n", 1, b'\n');
}

#[test]
fn cursor_chunk_size_larger_than_data() {
    cursor_equals_eager(b"tiny\n", 1_000_000, b'\n');
}

#[test]
fn cursor_chunk_size_equals_len() {
    cursor_equals_eager(b"aaaa\n", 5, b'\n');
}

#[test]
fn cursor_different_delimiters() {
    cursor_equals_eager(b"a,b,c,d,e", 2, b',');
    cursor_equals_eager(b"one\ttwo\tthree", 4, b'\t');
    cursor_equals_eager(b"a|b|c|d|e|f", 3, b'|');
    cursor_equals_eager(b"x\x00y\x00z", 2, b'\x00');
}

#[test]
fn cursor_binary_input() {
    let data: Vec<u8> = (0u8..=255).collect();
    cursor_equals_eager(&data, 32, b'\n');
    cursor_equals_eager(&data, 32, 0x00);
    cursor_equals_eager(&data, 32, 0xff);
}

#[test]
fn cursor_repeated_iteration_new_cursor() {
    let data = b"a\nb\nc\n";
    let first: Vec<&[u8]> = ChunkCursor::new(data, 2, b'\n').collect();
    let second: Vec<&[u8]> = ChunkCursor::new(data, 2, b'\n').collect();
    assert_eq!(first, second);
}

#[test]
fn cursor_fixed_lines_equivalence() {
    let data = b"aaa\nbbb\nccc\nddd\neee\n";
    cursor_equals_eager(data, 6, b'\n');
}

#[test]
fn cursor_only_newlines() {
    cursor_equals_eager(b"\n\n\n", 1, b'\n');
}

#[test]
fn cursor_record_larger_than_chunk() {
    let data = b"short\nverylonglinewithnodelimiteratall\nshort\n";
    cursor_equals_eager(data, 6, b'\n');
}

#[test]
fn cursor_deterministic_random_corpus() {
    let cases: &[(&[u8], usize, u8)] = &[
        (b"hello\nworld\n", 4, b'\n'),
        (b"a,b,c,d", 2, b','),
        (b"one\ttwo\tthree", 4, b'\t'),
        (b"a|b|c|d|e|f", 3, b'|'),
        (b"x\x00y\x00z", 2, b'\x00'),
        (b"single", 1024, b'\n'),
        (b"\n\n\n\n\n", 1, b'\n'),
        (b"\n", 1, b'\n'),
        (b"a", 1024, b'\n'),
        (b"line1\nline2\nline3\nline4\nline5\n", 10, b'\n'),
    ];
    for &(data, chunk_size, delim) in cases {
        cursor_equals_eager(data, chunk_size, delim);
    }
}

#[test]
fn cursor_large_corpus_equivalence() {
    let mut data = Vec::new();
    for i in 0..1000u32 {
        data.extend_from_slice(format!("line_content_{i:04}\n").as_bytes());
    }
    cursor_equals_eager(&data, 64, b'\n');
}

// Cursor contract tests — size_hint + is_empty

#[test]
fn cursor_size_hint_before_iteration() {
    let data = b"aaa\nbbb\nccc\nddd\neee\n";
    let cur = ChunkCursor::new(data, 6, b'\n');
    let (lo, hi) = cur.size_hint();
    assert_eq!(lo, 1);
    assert_eq!(hi, Some(data.len()));
}

#[test]
fn cursor_size_hint_after_one_next() {
    let data = b"aaa\nbbb\nccc\nddd\neee\n";
    let mut cur = ChunkCursor::new(data, 6, b'\n');
    let _ = cur.next();
    let (lo, hi) = cur.size_hint();
    assert_eq!(lo, 1);
    assert!(hi.unwrap() < data.len());
}

#[test]
fn cursor_size_hint_after_exhaustion() {
    let data = b"hello\n";
    let mut cur = ChunkCursor::new(data, 1024, b'\n');
    let _ = cur.next();
    let (lo, hi) = cur.size_hint();
    assert_eq!(lo, 0);
    assert_eq!(hi, Some(0));
}

#[test]
fn cursor_size_hint_empty_input() {
    let cur = ChunkCursor::new(b"", 1024, b'\n');
    let (lo, hi) = cur.size_hint();
    assert_eq!(lo, 0);
    assert_eq!(hi, Some(0));
}

#[test]
fn cursor_is_empty_before_iteration() {
    let data = b"hello\nworld";
    let cur = ChunkCursor::new(data, 100, b'\n');
    assert!(!cur.is_empty());
}

#[test]
fn cursor_is_empty_after_exhaustion() {
    let data = b"hello\n";
    let mut cur = ChunkCursor::new(data, 1024, b'\n');
    let _ = cur.next(); // yields the only chunk
    assert!(cur.is_empty());
}

#[test]
fn cursor_is_empty_empty_input() {
    let cur = ChunkCursor::new(b"", 1024, b'\n');
    assert!(cur.is_empty());
}

#[test]
fn cursor_size_hint_no_delimiter() {
    let data = b"no_newlines_at_all";
    let cur = ChunkCursor::new(data, 5, b'\n');
    let (lo, hi) = cur.size_hint();
    assert_eq!(lo, 1, "at least one chunk even with no delimiter");
    assert_eq!(hi, Some(data.len()));
}

#[test]
fn cursor_size_hint_chunk_size_zero() {
    let data = b"abcd\n";
    let cur = ChunkCursor::new(data, 0, b'\n');
    let (lo, _) = cur.size_hint();
    assert_eq!(lo, 1);
}

#[test]
fn cursor_size_hint_chunk_size_one() {
    let data = b"a\nb\nc\n";
    let cur = ChunkCursor::new(data, 1, b'\n');
    let (lo, _) = cur.size_hint();
    assert_eq!(lo, 1);
}

#[test]
fn cursor_size_hint_chunk_size_larger_than_data() {
    let data = b"tiny\n";
    let cur = ChunkCursor::new(data, 1_000_000, b'\n');
    let (lo, hi) = cur.size_hint();
    assert_eq!(lo, 1);
    assert_eq!(hi, Some(data.len()));
}

#[test]
fn property_size_hint_lower_bound_accurate() {
    let cases: &[(&[u8], usize, u8)] = &[
        (b"hello\nworld\n", 4, b'\n'),
        (b"a,b,c,d", 2, b','),
        (b"one\ttwo\tthree", 4, b'\t'),
        (b"a|b|c|d|e|f", 3, b'|'),
        (b"x\x00y\x00z", 2, b'\x00'),
        (b"single", 1024, b'\n'),
        (b"\n\n\n\n\n", 1, b'\n'),
        (b"", 1024, b'\n'),
        (b"\n", 1, b'\n'),
        (b"a", 1024, b'\n'),
        (b"a\nb\nc\n", 1, b'\n'),
        (b"aaaa\n", 5, b'\n'),
    ];
    for &(data, cs, delim) in cases {
        let mut cur = ChunkCursor::new(data, cs, delim);
        let mut total_yielded = 0usize;
        loop {
            let (lo, hi) = cur.size_hint();
            let remaining = cur.len() - cur.position();
            if remaining == 0 {
                assert_eq!(lo, 0);
                assert_eq!(hi, Some(0));
                break;
            }
            assert!(
                lo <= remaining,
                "lower bound {lo} exceeds remaining {remaining}: data={data:?} cs={cs}"
            );
            if let Some(next) = cur.next() {
                total_yielded += next.len();
            }
        }
        assert_eq!(total_yielded, data.len());
    }
}

#[test]
fn property_size_hint_upper_bound_accurate() {
    let cases: &[(&[u8], usize, u8)] = &[
        (b"hello\nworld\n", 4, b'\n'),
        (b"a,b,c,d", 2, b','),
        (b"a|b|c|d|e|f", 3, b'|'),
        (b"\n\n\n", 1, b'\n'),
    ];
    for &(data, cs, delim) in cases {
        let mut cur = ChunkCursor::new(data, cs, delim);
        loop {
            let (_, hi) = cur.size_hint();
            let remaining = cur.len() - cur.position();
            if remaining == 0 {
                assert_eq!(hi, Some(0));
                break;
            }
            assert!(
                hi.unwrap() >= remaining,
                "upper bound {} < remaining {}: data={data:?} cs={cs}",
                hi.unwrap(),
                remaining
            );
            let _ = cur.next();
        }
    }
}

// PatternChunkCursor contract tests

#[test]
fn pattern_cursor_size_hint_before_iteration() {
    let data = b"a\r\nb\r\nc\r\n";
    let cur = PatternChunkCursor::new(data, 4, b"\r\n");
    let (lo, hi) = cur.size_hint();
    assert_eq!(lo, 1);
    assert_eq!(hi, Some(data.len()));
}

#[test]
fn pattern_cursor_size_hint_after_one_next() {
    let data = b"a\r\nb\r\nc\r\n";
    let mut cur = PatternChunkCursor::new(data, 4, b"\r\n");
    let _ = cur.next();
    let (lo, hi) = cur.size_hint();
    assert_eq!(lo, 1);
    assert!(hi.unwrap() < data.len());
}

#[test]
fn pattern_cursor_size_hint_after_exhaustion() {
    let data = b"a\r\n";
    let mut cur = PatternChunkCursor::new(data, 1024, b"\r\n");
    let _ = cur.next();
    let (lo, hi) = cur.size_hint();
    assert_eq!(lo, 0);
    assert_eq!(hi, Some(0));
}

#[test]
fn pattern_cursor_size_hint_empty_input() {
    let cur = PatternChunkCursor::new(b"", 1024, b"\r\n");
    let (lo, hi) = cur.size_hint();
    assert_eq!(lo, 0);
    assert_eq!(hi, Some(0));
}

#[test]
fn pattern_cursor_is_empty_before_iteration() {
    let data = b"hello\r\nworld";
    let cur = PatternChunkCursor::new(data, 100, b"\r\n");
    assert!(!cur.is_empty());
}

#[test]
fn pattern_cursor_is_empty_after_exhaustion() {
    let data = b"hello\r\n";
    let mut cur = PatternChunkCursor::new(data, 1024, b"\r\n");
    let _ = cur.next();
    assert!(cur.is_empty());
}

#[test]
fn pattern_cursor_is_empty_empty_input() {
    let cur = PatternChunkCursor::new(b"", 1024, b"\r\n");
    assert!(cur.is_empty());
}

#[test]
fn pattern_cursor_size_hint_no_delimiter() {
    let data = b"no_crlf_here";
    let cur = PatternChunkCursor::new(data, 5, b"\r\n");
    let (lo, _) = cur.size_hint();
    assert_eq!(lo, 1);
}

#[test]
fn pattern_property_size_hint_lower_bound_accurate() {
    let cases: &[(&[u8], usize, &[u8])] = &[
        (b"a\r\nb\r\nc\r\n", 4, b"\r\n"),
        (b"ab||cd||ef", 4, b"||"),
        (b"single", 1024, b"\r\n"),
        (b"AB\xff\x00CD\xff\x00EF", 4, b"\xff\x00"),
        (b"\r\n\r\n\r\n", 1, b"\r\n"),
    ];
    for &(data, cs, delim) in cases {
        let mut cur = PatternChunkCursor::new(data, cs, delim);
        let mut total_yielded = 0usize;
        loop {
            let (lo, hi) = cur.size_hint();
            let remaining = cur.len() - cur.position();
            if remaining == 0 {
                assert_eq!(lo, 0);
                assert_eq!(hi, Some(0));
                break;
            }
            assert!(
                lo <= remaining,
                "lower bound {lo} exceeds remaining {remaining}"
            );
            if let Some(next) = cur.next() {
                total_yielded += next.len();
            }
        }
        assert_eq!(total_yielded, data.len());
    }
}

// Fixed-size chunking tests

#[test]
fn test_fixed_chunk_count_empty() {
    assert_eq!(fixed_chunk_count(0, 1024), 0);
}

#[test]
fn test_fixed_chunk_count_exact_multiple() {
    assert_eq!(fixed_chunk_count(1024, 256), 4);
}

#[test]
fn test_fixed_chunk_count_with_remainder() {
    assert_eq!(fixed_chunk_count(1000, 256), 4);
}

#[test]
fn test_fixed_chunk_count_single() {
    assert_eq!(fixed_chunk_count(10, 1024), 1);
}

#[test]
fn test_fixed_chunk_count_zero_clamps() {
    assert_eq!(fixed_chunk_count(5, 0), 5);
}

#[test]
fn test_fixed_chunk_bounds_empty() {
    assert_eq!(fixed_chunk_bounds(0, 256, 0), None);
}

#[test]
fn test_fixed_chunk_bounds_exact() {
    assert_eq!(fixed_chunk_bounds(1024, 256, 0), Some((0, 256)));
    assert_eq!(fixed_chunk_bounds(1024, 256, 1), Some((256, 512)));
    assert_eq!(fixed_chunk_bounds(1024, 256, 2), Some((512, 768)));
    assert_eq!(fixed_chunk_bounds(1024, 256, 3), Some((768, 1024)));
    assert_eq!(fixed_chunk_bounds(1024, 256, 4), None);
}

#[test]
fn test_fixed_chunk_bounds_remainder() {
    assert_eq!(fixed_chunk_bounds(1000, 256, 3), Some((768, 1000)));
}

#[test]
fn test_fixed_chunk_bounds_size_larger_than_file() {
    assert_eq!(fixed_chunk_bounds(10, 1024, 0), Some((0, 10)));
    assert_eq!(fixed_chunk_bounds(10, 1024, 1), None);
}

#[test]
fn test_fixed_chunk_bounds_oob() {
    assert_eq!(fixed_chunk_bounds(1024, 256, 4), None);
    assert_eq!(fixed_chunk_bounds(1024, 256, 100), None);
}

#[test]
fn test_fixed_chunk_bounds_zero_clamps() {
    assert_eq!(fixed_chunk_bounds(5, 0, 0), Some((0, 1)));
    assert_eq!(fixed_chunk_bounds(5, 0, 1), Some((1, 2)));
    assert_eq!(fixed_chunk_bounds(5, 0, 4), Some((4, 5)));
    assert_eq!(fixed_chunk_bounds(5, 0, 5), None);
}

#[test]
fn test_fixed_chunk_bounds_single() {
    assert_eq!(fixed_chunk_bounds(1, 1024, 0), Some((0, 1)));
}

#[test]
fn test_fixed_property_concat_equals_len() {
    let cases: &[(usize, usize)] = &[
        (1024, 256),
        (1000, 256),
        (1, 1024),
        (0, 1024),
        (5, 1),
        (1024, 1024),
        (1025, 1024),
    ];
    for &(len, cs) in cases {
        let count = fixed_chunk_count(len, cs);
        let mut total = 0usize;
        for i in 0..count {
            let (s, e) = fixed_chunk_bounds(len, cs, i).unwrap();
            total += e - s;
            assert!(s <= e);
        }
        assert_eq!(total, len, "len={len} cs={cs}");
    }
}

#[test]
fn test_fixed_property_no_gaps() {
    let cases: &[(usize, usize)] = &[(1024, 256), (1000, 256), (5, 1)];
    for &(len, cs) in cases {
        let count = fixed_chunk_count(len, cs);
        let mut prev_end = 0usize;
        for i in 0..count {
            let (s, e) = fixed_chunk_bounds(len, cs, i).unwrap();
            assert_eq!(s, prev_end, "gap at i={i}");
            prev_end = e;
        }
        assert_eq!(prev_end, len);
    }
}

#[test]
fn test_fixed_property_non_final_full() {
    let cases: &[(usize, usize)] = &[(1024, 256), (1000, 256), (5, 1)];
    for &(len, cs) in cases {
        let count = fixed_chunk_count(len, cs);
        let eff = cs.max(1);
        for i in 0..count.saturating_sub(1) {
            let (s, e) = fixed_chunk_bounds(len, cs, i).unwrap();
            assert_eq!(e - s, eff, "non-final chunk {i} not full");
        }
    }
}

#[test]
fn test_fixed_property_final_not_larger_than_chunk_size() {
    let cases: &[(usize, usize)] = &[(1024, 256), (1000, 256), (5, 1)];
    for &(len, cs) in cases {
        let count = fixed_chunk_count(len, cs);
        if count > 0 {
            let (s, e) = fixed_chunk_bounds(len, cs, count - 1).unwrap();
            assert!(e - s <= cs.max(1));
        }
    }
}

#[test]
fn test_fixed_property_deterministic() {
    for _ in 0..10 {
        assert_eq!(fixed_chunk_count(1000, 256), 4);
        assert_eq!(fixed_chunk_bounds(1000, 256, 1), Some((256, 512)));
    }
}

#[test]
fn test_fixed_overflow_safety() {
    // chunk_size near usize::MAX — should produce 1 chunk covering the file
    let len: usize = 1024;
    let huge: usize = usize::MAX;
    assert_eq!(fixed_chunk_count(len, huge), 1);
    assert_eq!(fixed_chunk_bounds(len, huge, 0), Some((0, len)));

    // chunk_size = 1 on reasonable file
    assert_eq!(fixed_chunk_count(len, 1), len);
    assert_eq!(fixed_chunk_bounds(len, 1, 0), Some((0, 1)));
    assert_eq!(fixed_chunk_bounds(len, 1, len - 1), Some((len - 1, len)));

    // zero file, huge chunk
    assert_eq!(fixed_chunk_count(0, usize::MAX), 0);
}

#[test]
fn partition_empty_data() {
    assert_eq!(find_partition_boundaries(b"", 4, b'\n'), vec![]);
}

#[test]
fn partition_zero_partitions() {
    let data = b"hello\nworld\n";
    assert_eq!(find_partition_boundaries(data, 0, b'\n'), vec![]);
}

#[test]
fn partition_single_partition() {
    let data = b"hello\nworld\n";
    assert_eq!(
        find_partition_boundaries(data, 1, b'\n'),
        vec![(0, data.len())]
    );
}

#[test]
fn partition_no_delimiter() {
    let data = b"no_newlines_here";
    for &n in &[2, 4, 8, 16] {
        let partitions = find_partition_boundaries(data, n, b'\n');
        assert_eq!(partitions, vec![(0, data.len())]);
    }
}

#[test]
fn partition_block_count_semantics() {
    let data = b"a\nb\nc\nd\ne\n";
    // 5 records, request 2 partitions
    let partitions = find_partition_boundaries(data, 2, b'\n');
    assert!(partitions.len() >= 2);
    // Complete coverage
    assert_eq!(partitions[0].0, 0);
    assert_eq!(partitions.last().unwrap().1, data.len());
}

#[test]
fn partition_property_no_gaps() {
    let cases: &[(&[u8], usize, u8)] = &[
        (b"a\nb\nc\n", 2, b'\n'),
        (b"a\nb\nc\n", 3, b'\n'),
        (b"a\nb\nc\n", 4, b'\n'),
        (b"a,b,c,d,e,f", 3, b','),
        (b"a\tb\tc\t", 2, b'\t'),
        (b"a|b|c|d|e|f", 4, b'|'),
    ];
    for &(data, n, delim) in cases {
        let partitions = find_partition_boundaries(data, n, delim);
        if partitions.is_empty() {
            continue;
        }
        assert_eq!(partitions[0].0, 0, "first must start at 0");
        for i in 1..partitions.len() {
            assert_eq!(
                partitions[i].0,
                partitions[i - 1].1,
                "gap at partition {}->{}",
                i - 1,
                i
            );
        }
        assert_eq!(
            partitions.last().unwrap().1,
            data.len(),
            "last must end at EOF"
        );
    }
}

#[test]
fn partition_property_concatenation_equals_input() {
    let cases: &[(&[u8], usize, u8)] = &[
        (b"hello\nworld\n", 2, b'\n'),
        (b"a,b,c,d", 2, b','),
        (b"one\ttwo\tthree", 2, b'\t'),
        (b"a|b|c|d|e|f", 3, b'|'),
        (b"x\x00y\x00z", 2, b'\x00'),
        (b"single", 4, b'\n'),
        (b"\n\n\n\n\n", 2, b'\n'),
        (b"\n", 2, b'\n'),
        (b"a", 4, b'\n'),
    ];
    for &(data, n, delim) in cases {
        let partitions = find_partition_boundaries(data, n, delim);
        let total: usize = partitions.iter().map(|(s, e)| e - s).sum();
        assert_eq!(
            total,
            data.len(),
            "concat property failed: n={n} delim={delim:02x}"
        );
    }
}

#[test]
fn partition_property_determinism() {
    let data = b"line1\nline2\nline3\nline4\nline5\n";
    let p1 = find_partition_boundaries(data, 3, b'\n');
    let p2 = find_partition_boundaries(data, 3, b'\n');
    assert_eq!(p1, p2);
    let p3 = find_partition_boundaries(data, 3, b'\n');
    assert_eq!(p1, p3);
}

#[test]
fn partition_property_boundary_after_delimiter() {
    let data = b"record1\nrecord2\nrecord3\n";
    for &n in &[2, 3, 4] {
        let partitions = find_partition_boundaries(data, n, b'\n');
        // Every non-final partition must end right after a newline
        for (_start, end) in partitions.iter().take(partitions.len().saturating_sub(1)) {
            assert_eq!(
                data[end.wrapping_sub(1)],
                b'\n',
                "non-final partition must end after delimiter"
            );
            assert!(*end > 0, "partition must be non-empty");
        }
    }
}

#[test]
fn partition_property_no_empty_partitions() {
    let data = b"a\nb\nc\n";
    for &n in &[2, 3, 4, 8] {
        let partitions = find_partition_boundaries(data, n, b'\n');
        for &(start, end) in &partitions {
            assert!(end > start, "zero-length partition: n={n}");
        }
    }
}

#[test]
fn partition_property_monotonic() {
    let data = b"x\nxx\nxxx\nxxxx\nxxxxx\n";
    for &n in &[2, 3, 4, 8] {
        let partitions = find_partition_boundaries(data, n, b'\n');
        let mut last_end = 0usize;
        for (start, end) in &partitions {
            assert!(*start >= last_end);
            assert!(*end > *start);
            last_end = *end;
        }
    }
}

// Record integrity — numbered records

#[test]
fn partition_record_integrity_numbered() {
    let delim = b'\n';
    let mut data = Vec::new();
    let mut original_records: Vec<Vec<u8>> = Vec::new();
    for i in 0..100u32 {
        let record = format!("record-{i:06}\n").into_bytes();
        data.extend_from_slice(&record);
        original_records.push(record);
    }

    // Ensure data starts at 0
    let file_len = data.len();

    for &n in &[1, 2, 3, 5, 7, 8, 13, 17, 20, 37, 50] {
        let partitions = find_partition_boundaries(&data, n, delim);

        // Verify complete coverage
        let total: usize = partitions.iter().map(|(s, e)| e - s).sum();
        assert_eq!(total, file_len);

        // Collect all records as bytes from each partition
        let mut recovered: Vec<Vec<u8>> = Vec::new();
        for &(start, end) in &partitions {
            let chunk = &data[start..end];
            // Split chunk by delimiter (simple line parser)
            let mut pos = 0;
            for (j, &b) in chunk.iter().enumerate() {
                if b == delim {
                    let rec = chunk[pos..=j].to_vec();
                    if !rec.is_empty() {
                        recovered.push(rec);
                    }
                    pos = j + 1;
                }
            }
            // Handle trailing content without delimiter
            if pos < chunk.len() {
                recovered.push(chunk[pos..].to_vec());
            }
        }

        // Must recover exactly original records in order
        assert_eq!(
            recovered, original_records,
            "record integrity violated for n={n}"
        );
    }
}

#[test]
fn partition_record_integrity_giant_record() {
    // One giant record in the middle, records on both sides
    let delim = b'\n';
    let mut data = b"short1\n".to_vec();
    let giant = vec![b'x'; 5000];
    // Giant has NO delimiter — spans many target positions
    data.extend_from_slice(&giant);
    data.extend_from_slice(b"short2\n");
    let file_len = data.len();

    for &n in &[2, 4, 8, 16, 32] {
        let partitions = find_partition_boundaries(&data, n, delim);

        // Complete coverage
        let total: usize = partitions.iter().map(|(s, e)| e - s).sum();
        assert_eq!(total, file_len);

        // The giant record should not be split
        // Check non-final partition boundaries
        for (_start, end) in partitions.iter().take(partitions.len().saturating_sub(1)) {
            assert_eq!(
                data[end.wrapping_sub(1)],
                delim,
                "non-final partition must end after delimiter at n={n}"
            );
        }

        // If n <= number of actual records, should have fewer or equal partitions
        // With 2 records + 1 giant no-delim block, max partitions = 3
        assert!(partitions.len() <= 3 + 1);
    }
}

// Balance metrics

#[test]
fn partition_balance_uniform_100b() {
    let delim = b'\n';
    let record_size = 100;
    let record_count = 1000;
    let mut data = Vec::new();
    for i in 0..record_count {
        let fill = (i as u8).wrapping_add(0x41);
        let payload = vec![fill; record_size - 1];
        data.extend_from_slice(&payload);
        data.push(delim);
    }
    let file_len = data.len();

    fn max_abs_deviation(partitions: &[(usize, usize)], ideal: usize) -> usize {
        partitions
            .iter()
            .map(|(s, e)| {
                let size = e - s;
                size.abs_diff(ideal)
            })
            .max()
            .unwrap_or(0)
    }

    for &n in &[2, 4, 8, 16, 32] {
        let partitions = find_partition_boundaries(&data, n, delim);
        let actual_n = partitions.len();
        let ideal = file_len / actual_n;
        let mad = max_abs_deviation(&partitions, ideal);

        // For uniform 100B records, deviation should be bounded by ~2 * record_size
        assert!(
            mad <= 2 * record_size + 10,
            "n={n}, ideal={ideal}, mad={mad}, too much deviation"
        );

        // Verify boundaries were not unnecessarily shifted
        for (_start, end) in partitions.iter().take(actual_n.saturating_sub(1)) {
            assert_eq!(data[end - 1], delim);
        }
    }
}

#[test]
fn partition_balance_variable_records() {
    let delim = b'\n';
    let pattern: &[usize] = &[20, 100, 4096]; // 20B, 100B, 4KiB repeating
    let mut data = Vec::new();
    let mut i = 0;
    while data.len() < 1_000_000 {
        let payload_size = pattern[i % pattern.len()].saturating_sub(1);
        let fill = (i as u8).wrapping_add(0x41);
        data.extend(std::iter::repeat(fill).take(payload_size));
        data.push(delim);
        i += 1;
    }
    let file_len = data.len();

    for &n in &[2, 4, 8, 16, 32] {
        let partitions = find_partition_boundaries(&data, n, delim);
        let actual_n = partitions.len();
        let _ideal = file_len / actual_n;

        // With max record of 4KB, deviation should stay bounded
        for (start, end) in &partitions {
            let size = end - start;
            // Extremely loose bound — just ensure no catastrophic imbalance
            assert!(size > 0, "zero-length partition at n={n}");
        }

        // Verify coverage
        let total: usize = partitions.iter().map(|(s, e)| e - s).sum();
        assert_eq!(total, file_len);
    }
}

#[test]
fn partition_absolute_vs_iterative_drift() {
    // This test verifies that the absolute-target algorithm does NOT
    // suffer from cumulative drift like the iterative approach.
    //
    // For a file with one large record (delaying the first boundary),
    // the iterative approach would shift ALL subsequent boundaries
    // by the overshoot. Absolute targets recenter.

    let delim = b'\n';
    let mut data = Vec::new();
    // One giant record at the start
    data.extend_from_slice(b"giant_record_with_no_delimiter_here");
    // Then many small records
    for i in 0..100usize {
        let record = format!("line-{i:04}\n").into_bytes();
        data.extend_from_slice(&record);
    }
    let file_len = data.len();
    let n = 8;

    let partitions = find_partition_boundaries(&data, n, delim);
    let actual_n = partitions.len();

    // The first partition should contain the giant record
    assert_eq!(partitions[0].0, 0);
    // Remaining partitions should each be approximately equal
    let remaining_data = file_len - partitions[0].1;
    let remaining_partitions = actual_n - 1;
    let ideal_remaining = remaining_data / remaining_partitions;

    let max_dev: usize = partitions[1..]
        .iter()
        .map(|(s, e)| {
            let size = e - s;
            size.abs_diff(ideal_remaining)
        })
        .max()
        .unwrap_or(0);

    // After the giant record, remaining partitions should be well-balanced
    // (bounded by max record size, which is small here)
    let max_record = b"giant_record_with_no_delimiter_here".len() + 1 + 10; // generous
    assert!(
        max_dev <= max_record * 2 + 50,
        "remaining partitions unbalanced: max_dev={max_dev}, ideal_remaining={ideal_remaining}"
    );

    // Also verify: the giant record is NOT split
    assert!(partitions.len() <= actual_n);
}

#[test]
fn partition_sparse_64k_records() {
    let delim = b'\n';
    let record_size = 65536;
    let record_count = 50;
    let mut data = Vec::with_capacity(record_count * record_size);
    for i in 0..record_count {
        let fill = (i as u8).wrapping_add(0x41);
        data.extend(std::iter::repeat(fill).take(record_size - 1));
        data.push(delim);
    }
    let file_len = data.len();

    for &n in &[2, 4, 8, 16] {
        let partitions = find_partition_boundaries(&data, n, delim);

        // Complete coverage
        let total: usize = partitions.iter().map(|(s, e)| e - s).sum();
        assert_eq!(total, file_len);

        // With 64KB records, partitions may be few. There should be no split records.
        for (_start, end) in partitions.iter().take(partitions.len().saturating_sub(1)) {
            // Non-final partitions end after a delimiter
            assert_eq!(data[end.wrapping_sub(1)], delim, "64KB record split? n={n}");
        }
    }
}

#[test]
fn partition_no_empty_to_hit_n() {
    // A file with 2 records, N=100 -> should produce 2 partitions, not 100
    let data = b"record1\nrecord2\n";
    let partitions = find_partition_boundaries(data, 100, b'\n');
    assert!(!partitions.is_empty());
    for &(s, e) in &partitions {
        assert!(e > s, "must not create empty partitions");
    }
    assert!(
        partitions.len() < 100,
        "should produce fewer partitions than N"
    );
}

#[test]
fn partition_consecutive_delimiters() {
    let data = b"\n\n\n\n\n";
    for &n in &[2, 3, 4] {
        let partitions = find_partition_boundaries(data, n, b'\n');
        if partitions.is_empty() {
            continue;
        }
        assert_eq!(partitions[0].0, 0);
        for i in 1..partitions.len() {
            assert_eq!(partitions[i].0, partitions[i - 1].1);
        }
        assert_eq!(partitions.last().unwrap().1, data.len());
    }
}

#[test]
fn partition_only_newlines() {
    let data = b"\n\n\n";
    for &n in &[1, 2, 3, 4] {
        let partitions = find_partition_boundaries(data, n, b'\n');
        let total: usize = partitions.iter().map(|(s, e)| e - s).sum();
        assert_eq!(total, data.len());
    }
}

// Multi-byte delimiter tests

/// Verify pattern scanner == single-byte scanner for 1-byte delimiters.
fn pattern_equals_single_byte(data: &[u8], chunk_size: usize, delimiter: u8) {
    let single = find_chunk_boundaries(data, chunk_size, delimiter);
    let pattern = find_chunk_boundaries_pattern(data, chunk_size, &[delimiter]);
    assert_eq!(
        single, pattern,
        "pattern != single: chunk_size={chunk_size} delim={delimiter:#04x}"
    );
}

/// Verify PatternChunkCursor == ChunkCursor for 1-byte delimiters.
fn cursor_pattern_equals_single_byte(data: &[u8], chunk_size: usize, delimiter: u8) {
    let single: Vec<&[u8]> = ChunkCursor::new(data, chunk_size, delimiter).collect();
    let pattern: Vec<&[u8]> = PatternChunkCursor::new(data, chunk_size, &[delimiter]).collect();
    assert_eq!(
        single, pattern,
        "pattern cursor != single cursor: chunk_size={chunk_size} delim={delimiter:#04x}",
    );
}

#[test]
fn pattern_single_byte_equivalence_all_delimiters() {
    let cases: &[(&[u8], usize, u8)] = &[
        (b"hello\nworld\n", 4, b'\n'),
        (b"a,b,c,d", 2, b','),
        (b"one\ttwo\tthree", 4, b'\t'),
        (b"a|b|c|d|e|f", 3, b'|'),
        (b"x\x00y\x00z", 2, b'\x00'),
        (b"single", 1024, b'\n'),
        (b"\n\n\n\n\n", 1, b'\n'),
        (b"", 1024, b'\n'),
        (b"\n", 1, b'\n'),
        (b"a", 1024, b'\n'),
        (b"line1\nline2\nline3\nline4\nline5\n", 10, b'\n'),
        (b"no_newlines_here", 5, b'\n'),
        (b"xxxx\n", 5, b'\n'),
        (b"a\nb\nc\n", 1, b'\n'),
        (b"tiny\nverylongrecordwithnobreaksanywhere\nend\n", 6, b'\n'),
    ];
    for &(data, chunk_size, delim) in cases {
        pattern_equals_single_byte(data, chunk_size, delim);
        cursor_pattern_equals_single_byte(data, chunk_size, delim);
    }
}

#[test]
fn pattern_empty_data() {
    assert_eq!(find_chunk_boundaries_pattern(b"", 1024, b"\r\n"), vec![]);
    assert_eq!(
        PatternChunkCursor::new(b"", 1024, b"\r\n").collect(),
        Vec::<&[u8]>::new()
    );
}

#[test]
fn pattern_crlf_basic() {
    let data = b"a\r\nb\r\nc\r\n";
    let chunks = find_chunk_boundaries_pattern(data, 4, b"\r\n");
    assert_eq!(chunks, vec![(0, 6), (6, 9)]);

    let cursor: Vec<&[u8]> = PatternChunkCursor::new(data, 4, b"\r\n").collect();
    assert_eq!(cursor, vec![b"a\r\nb\r\n" as &[u8], b"c\r\n" as &[u8]]);
}

#[test]
fn pattern_crlf_no_trailing_delimiter() {
    let data = b"a\r\nb\r\nc";
    let chunks = find_chunk_boundaries_pattern(data, 1024, b"\r\n");
    assert_eq!(chunks, vec![(0, data.len())]);
}

#[test]
fn pattern_consecutive_crlf() {
    let data = b"\r\n\r\n\r\n";
    let chunks = find_chunk_boundaries_pattern(data, 1, b"\r\n");
    assert_eq!(chunks, vec![(0, 4), (4, 6)]);
}

#[test]
fn pattern_double_crlf_http_style() {
    let data = b"Header: val\r\n\r\nbody";
    let chunks = find_chunk_boundaries_pattern(data, 1024, b"\r\n\r\n");
    assert_eq!(chunks, vec![(0, 19)]);
}

#[test]
fn pattern_double_crlf_split_at_delimiter() {
    let data = b"Header: val\r\n\r\nbody line 2\r\n\r\nmore";
    let chunks = find_chunk_boundaries_pattern(data, 1, b"\r\n\r\n");
    assert_eq!(chunks.len(), 3);
    let total: usize = chunks.iter().map(|(s, e)| e - s).sum();
    assert_eq!(total, data.len());
    assert_eq!(&data[chunks[0].0..chunks[0].1], b"Header: val\r\n\r\n");
}

#[test]
fn pattern_custom_double_separator() {
    let data = b"a||b||c||d";
    let chunks = find_chunk_boundaries_pattern(data, 4, b"||");
    assert_eq!(chunks, vec![(0, 6), (6, 10)]);

    let cursor: Vec<&[u8]> = PatternChunkCursor::new(data, 4, b"||").collect();
    assert_eq!(cursor, vec![b"a||b||" as &[u8], b"c||d" as &[u8]]);
}

#[test]
fn pattern_binary_delimiter() {
    let data = b"AB\x00\xFF\x00CD\x00\xFF\x00EF";
    let chunks = find_chunk_boundaries_pattern(data, 10, b"\x00\xff\x00");
    assert_eq!(chunks, vec![(0, data.len())]);
}

#[test]
fn pattern_binary_delimiter_small_chunk() {
    let data = b"AB\x00\xFF\x00CD\x00\xFF\x00EF";
    let chunks = find_chunk_boundaries_pattern(data, 4, b"\x00\xff\x00");
    assert_eq!(chunks, vec![(0, 10), (10, 12)]);
}

#[test]
fn pattern_at_eof() {
    let data = b"hello\r\nworld\r\n";
    let chunks = find_chunk_boundaries_pattern(data, 50, b"\r\n");
    assert_eq!(chunks, vec![(0, data.len())]);
}

#[test]
fn pattern_partial_at_eof() {
    let data = b"hello\r\nworld\r";
    let chunks = find_chunk_boundaries_pattern(data, 50, b"\r\n");
    assert_eq!(chunks, vec![(0, data.len())]);
}

#[test]
fn pattern_exactly_at_target() {
    let data = b"xxxx\r\n";
    let chunks = find_chunk_boundaries_pattern(data, 6, b"\r\n");
    assert_eq!(chunks, vec![(0, 6)]);
}

#[test]
fn pattern_starts_one_byte_before_target() {
    let data = b"xxxy\r\n";
    let chunks = find_chunk_boundaries_pattern(data, 6, b"\r\n");
    assert_eq!(chunks, vec![(0, data.len())]);
    assert_eq!(&data[..chunks[0].1], b"xxxy\r\n");
}

#[test]
fn pattern_no_delimiter() {
    let data = b"no_delimiter_here";
    let chunks = find_chunk_boundaries_pattern(data, 5, b"\r\n");
    assert_eq!(chunks, vec![(0, data.len())]);
}

#[test]
fn pattern_delimiter_longer_than_data() {
    let data = b"hi";
    let chunks = find_chunk_boundaries_pattern(data, 1024, b"\r\n\r\n\r\n");
    assert_eq!(chunks, vec![(0, data.len())]);
}

#[test]
fn pattern_chunk_size_zero() {
    let data = b"a\r\nb\r\nc\r\n";
    let chunks = find_chunk_boundaries_pattern(data, 0, b"\r\n");
    assert!(!chunks.is_empty());
    let total: usize = chunks.iter().map(|(s, e)| e - s).sum();
    assert_eq!(total, data.len());
}

#[test]
fn pattern_chunk_size_one() {
    let data = b"a\r\nb\r\nc\r\n";
    let chunks = find_chunk_boundaries_pattern(data, 1, b"\r\n");
    let mut pos = 0;
    for (start, end) in &chunks {
        assert_eq!(*start, pos);
        pos = *end;
    }
    assert_eq!(pos, data.len());
}

#[test]
fn pattern_huge_chunk_size() {
    let data = b"a\r\nb\r\nc\r\n";
    let chunks = find_chunk_boundaries_pattern(data, 1_000_000, b"\r\n");
    assert_eq!(chunks, vec![(0, data.len())]);
}

#[test]
fn pattern_overlapping_pattern() {
    // Delimiter "aa" should not match at position 0 in "aaa"
    let data = b"xaaaay";
    let chunks = find_chunk_boundaries_pattern(data, 1, b"aa");
    let total: usize = chunks.iter().map(|(s, e)| e - s).sum();
    assert_eq!(total, data.len());
}

#[test]
fn pattern_cursor_equivalence_crlf() {
    let data = b"line1\r\nline2\r\nline3\r\n";
    let eager = find_chunk_boundaries_pattern(data, 6, b"\r\n");
    let cursor: Vec<&[u8]> = PatternChunkCursor::new(data, 6, b"\r\n").collect();
    let lazy_ranges: Vec<(usize, usize)> = cursor
        .iter()
        .scan(0usize, |pos, &chunk| {
            let start = *pos;
            *pos += chunk.len();
            Some((start, *pos))
        })
        .collect();
    assert_eq!(lazy_ranges, eager);
}

#[test]
fn pattern_deterministic_corpus() {
    let mut data = Vec::new();
    for i in 0..1000u32 {
        data.extend_from_slice(format!("line_{i:04}\r\n").as_bytes());
    }
    let eager = find_chunk_boundaries_pattern(&data, 64, b"\r\n");
    let cursor: Vec<&[u8]> = PatternChunkCursor::new(&data, 64, b"\r\n").collect();
    let cursor_ranges: Vec<(usize, usize)> = cursor
        .iter()
        .scan(0usize, |pos, &chunk| {
            let start = *pos;
            *pos += chunk.len();
            Some((start, *pos))
        })
        .collect();
    assert_eq!(cursor_ranges, eager);
}

#[test]
fn pattern_property_no_gaps() {
    let data = b"rec1\r\nrec2\r\nrec3\r\nrec4\r\n";
    let chunks = find_chunk_boundaries_pattern(data, 6, b"\r\n");
    if chunks.is_empty() {
        return;
    }
    assert_eq!(chunks[0].0, 0);
    for i in 1..chunks.len() {
        assert_eq!(chunks[i].0, chunks[i - 1].1);
    }
    assert_eq!(chunks.last().unwrap().1, data.len());
}

#[test]
fn pattern_property_concatenation() {
    let cases: &[(&[u8], usize, &[u8])] = &[
        (b"a\r\nb\r\nc\r\n", 4, b"\r\n"),
        (b"ab||cd||ef", 4, b"||"),
        (b"single", 1024, b"\r\n"),
        (b"AB\xff\x00CD\xff\x00EF", 4, b"\xff\x00"),
    ];
    for &(data, cs, delim) in cases {
        let chunks = find_chunk_boundaries_pattern(data, cs, delim);
        let total: usize = chunks.iter().map(|(s, e)| e - s).sum();
        assert_eq!(total, data.len());
    }
}

#[test]
fn pattern_property_determinism() {
    let data = b"x||y||z||w||";
    let c1 = find_chunk_boundaries_pattern(data, 2, b"||");
    let c2 = find_chunk_boundaries_pattern(data, 2, b"||");
    assert_eq!(c1, c2);
}

#[test]
fn pattern_repeated_prefix_adversarial() {
    // Searching for "aaaaab" in "aaaaaaaaaa..." — worst-case for
    // first-byte SWAR + verify (hits many false positives).
    let delimiter = b"aaaaab";
    let hay = vec![b'a'; 10_000];
    let data: Vec<u8> = hay.iter().chain(delimiter.iter()).copied().collect();
    let chunks = find_chunk_boundaries_pattern(&data, 5000, delimiter);
    assert!(!chunks.is_empty());
    let total: usize = chunks.iter().map(|(s, e)| e - s).sum();
    assert_eq!(total, data.len());
}

// Overflow safety — near-usize::MAX arithmetic

#[test]
fn overflow_safe_partition_target_u128() {
    // On 64-bit, file_len * i can overflow u64. u128 prevents this.
    let huge: usize = usize::MAX;
    // file_len = huge, n = 3: product hits 2*huge which overflows u64
    // but fits in u128. Cannot actually mmap this, so test the formula.
    let target = (huge as u128) * (2u128) / (3u128);
    assert!(target < huge as u128);

    // Verify the partition function produces correct boundaries at the
    // realistic scale: a real file fits in usize but needs correct math.
    let data = b"aa\nbb\ncc\ndd\nee\n";
    let partitions = find_partition_boundaries(data, 3, b'\n');
    let total: usize = partitions.iter().map(|(s, e)| e - s).sum();
    assert_eq!(total, data.len());
}

#[test]
fn overflow_safe_scanner_target_saturates() {
    // chunk_size near usize::MAX, start near len → saturating_add
    // prevents wrap. The test verifies the clamped behavior.
    let data = b"hello\nworld\n";
    let chunks = find_chunk_boundaries(data, usize::MAX, b'\n');
    assert_eq!(chunks, vec![(0, data.len())]);
}

#[test]
fn overflow_safe_cursor_target_saturates() {
    let data = b"hello\nworld\n";
    let cursor: Vec<&[u8]> = ChunkCursor::new(data, usize::MAX, b'\n').collect();
    let total: usize = cursor.iter().map(|c| c.len()).sum();
    assert_eq!(total, data.len());
}

#[test]
fn overflow_safe_pattern_target_saturates() {
    let data = b"a\r\nb\r\nc\r\n";
    let chunks = find_chunk_boundaries_pattern(data, usize::MAX, b"\r\n");
    assert_eq!(chunks, vec![(0, data.len())]);
}

#[test]
fn overflow_safe_pattern_cursor_target_saturates() {
    let data = b"a\r\nb\r\nc\r\n";
    let cursor: Vec<&[u8]> = PatternChunkCursor::new(data, usize::MAX, b"\r\n").collect();
    let total: usize = cursor.iter().map(|c| c.len()).sum();
    assert_eq!(total, data.len());
}

#[test]
fn overflow_safe_fixed_bounds_large_values() {
    // Already uses saturating_mul/saturating_add — verify correctness
    // with extreme parameters
    assert_eq!(fixed_chunk_count(0, usize::MAX), 0);
    assert_eq!(fixed_chunk_count(1024, usize::MAX), 1);
    assert_eq!(fixed_chunk_bounds(1024, usize::MAX, 0), Some((0, 1024)));

    // chunk_size = 1 on large file
    let len: usize = 1000;
    assert_eq!(fixed_chunk_count(len, 1), len);
    assert_eq!(fixed_chunk_bounds(len, 1, len - 1), Some((len - 1, len)));

    // Zero file, any chunk_size
    assert_eq!(fixed_chunk_bounds(0, usize::MAX, 0), None);
}
