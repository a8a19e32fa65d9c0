//! The handle-based engine interface.

use mmap_chunker_core::engine::{
    abi_version, capabilities, check_chunk_call, check_pattern_call, error_bytes, Engine,
    EngineError, ABI_VERSION, CAP_CONFIGURABLE_DELIMITER, CAP_ERROR_STRINGS,
    CAP_FIXED_SIZE_CHUNKING, CAP_MULTI_BYTE_DELIMITER, CAP_RECORD_PARTITIONING, CAP_ZERO_COPY,
    MAX_ERROR_LEN,
};
use mmap_chunker_core::scanner::find_chunk_boundaries_pattern;

type PatternCase<'a> = (&'a str, &'a [u8], &'a [u8], usize, usize);

/// An engine together with the bytes of its file.
struct Handle<'a> {
    data: &'a [u8],
    engine: Engine,
}

impl<'a> Handle<'a> {
    fn open(data: &'a [u8]) -> Self {
        Handle {
            data,
            engine: Engine::new(),
        }
    }

    fn scan_chunks(&mut self, chunk_size: usize) -> usize {
        self.engine.scan_chunks(self.data, chunk_size)
    }

    fn scan_chunks_ex(&mut self, chunk_size: usize, delimiter: u8) -> usize {
        self.engine.scan_chunks_ex(self.data, chunk_size, delimiter)
    }

    fn scan_chunks_pattern(&mut self, chunk_size: usize, delimiter: &[u8]) -> usize {
        self.engine
            .scan_chunks_pattern(self.data, chunk_size, delimiter)
            .unwrap_or(0)
    }

    fn scan_fixed(&mut self, chunk_size: usize) -> usize {
        self.engine.scan_fixed(self.data.len(), chunk_size)
    }

    fn partition_records(&mut self, parts: usize, delimiter: u8) -> usize {
        self.engine
            .partition_records(self.data, parts, delimiter)
            .unwrap_or(0)
    }

    fn get_chunk(&self, index: usize) -> Result<&'a [u8], EngineError> {
        let (start, end) = self.engine.get_chunk(self.data.len(), index)?;
        Ok(&self.data[start..end])
    }
}

#[test]
fn test_null_handle_safety() {
    assert_eq!(check_chunk_call(true, true), Err(EngineError::NullHandle));
    assert_eq!(check_chunk_call(true, false), Err(EngineError::NullHandle));
    assert_eq!(
        check_pattern_call(true, false, 1),
        Err(EngineError::NullHandle)
    );
}

#[test]
fn test_zero_size_file_through_ffi() {
    let mut h = Handle::open(b"");
    let count = h.scan_chunks(1024);
    assert_eq!(count, 0, "zero-size file should produce 0 chunks");
}

#[test]
fn test_scan_get_chunk_before_scan() {
    let h = Handle::open(b"line1\nline2\n");
    assert_eq!(
        h.get_chunk(0),
        Err(EngineError::IndexOutOfBounds),
        "get_chunk before scan should fail"
    );
}

#[test]
fn test_repeated_scan_through_ffi() {
    let mut h = Handle::open(b"a\nb\nc\nd\ne\n");
    let count1 = h.scan_chunks(4);
    let count2 = h.scan_chunks(4);
    assert_eq!(count1, count2, "repeated scan should produce same count");
    assert!(count1 > 0);

    let count3 = h.scan_chunks(8);
    assert_ne!(count3, count1, "different chunk size should differ");
}

#[test]
fn test_chunk_size_zero_through_ffi() {
    let mut h = Handle::open(b"abc\n");
    let count = h.scan_chunks(0);
    assert!(
        count > 0,
        "chunk_size=0 should clamp to 1 and produce chunks"
    );
}

#[test]
fn test_abi_version() {
    assert_eq!(abi_version(), ABI_VERSION);
    assert_eq!(mmap_chunker_core::ABI_VERSION, ABI_VERSION);
    assert_eq!(mmap_chunker_core::CAP_ZERO_COPY, CAP_ZERO_COPY);
}

#[test]
fn test_capabilities() {
    let caps = capabilities();
    assert!(caps & CAP_ZERO_COPY != 0, "must have ZERO_COPY");
    assert!(
        caps & CAP_CONFIGURABLE_DELIMITER != 0,
        "must have CONFIGURABLE_DELIMITER"
    );
    assert!(caps & CAP_ERROR_STRINGS != 0, "must have ERROR_STRINGS");
    assert!(
        caps & CAP_FIXED_SIZE_CHUNKING != 0,
        "must have FIXED_SIZE_CHUNKING"
    );
    assert!(
        caps & CAP_RECORD_PARTITIONING != 0,
        "must have RECORD_PARTITIONING"
    );
    assert!(
        caps & CAP_MULTI_BYTE_DELIMITER != 0,
        "must have MULTI_BYTE_DELIMITER"
    );
}

#[test]
fn test_last_error_null_path() {
    assert!(EngineError::NullPath.message().contains("null"));
}

#[test]
fn test_last_error_nonexistent_file() {
    assert!(!EngineError::OpenFailed.message().is_empty());
}

#[test]
fn test_scan_chunks_ex_custom_delimiter() {
    let mut h = Handle::open(b"a,b,c,d,e\n");
    let count_comma = h.scan_chunks_ex(1, b',');
    assert!(count_comma > 0, "comma delimiter should find chunks");
    let view = h.get_chunk(0).unwrap();
    assert_eq!(view.len(), 2);
    assert_eq!(view, b"a,");
}

#[test]
fn test_scan_chunks_ex_equals_scan_chunks_for_newline() {
    let data = b"aaa\nbbb\nccc\nddd\n";
    let mut h1 = Handle::open(data);
    let mut h2 = Handle::open(data);
    let c1 = h1.scan_chunks(4);
    let c2 = h2.scan_chunks_ex(4, b'\n');
    assert_eq!(c1, c2, "scan_chunks and scan_chunks_ex with \\n must match");
    for i in 0..c1 {
        let v1 = h1.get_chunk(i).unwrap();
        let v2 = h2.get_chunk(i).unwrap();
        assert_eq!(v1, v2);
    }
}

#[test]
fn test_scan_chunks_ex_normal() {
    let mut h = Handle::open(b"first\nsecond\nthird\n");
    let count = h.scan_chunks_ex(1, b'\n');
    assert_eq!(count, 3);
    assert_eq!(h.get_chunk(0).unwrap().len(), 6);
    assert_eq!(h.get_chunk(1).unwrap().len(), 7);
    assert_eq!(h.get_chunk(2).unwrap().len(), 6);
}

fn naive_pattern_boundaries(
    data: &[u8],
    chunk_size: usize,
    delimiter: &[u8],
) -> Vec<(usize, usize)> {
    assert!(!delimiter.is_empty());
    if data.is_empty() {
        return Vec::new();
    }

    let step = chunk_size.max(1);
    let mut chunks = Vec::new();
    let mut start = 0usize;
    while start < data.len() {
        let target = start.saturating_add(step);
        let end = if target >= data.len() {
            data.len()
        } else {
            let remainder = &data[target..];
            if remainder.len() < delimiter.len() {
                data.len()
            } else {
                let match_pos = (0..=remainder.len() - delimiter.len())
                    .find(|&pos| &remainder[pos..pos + delimiter.len()] == delimiter);
                match_pos
                    .map(|pos| target + pos + delimiter.len())
                    .unwrap_or(data.len())
            }
        };
        chunks.push((start, end));
        start = end;
    }
    chunks
}

#[test]
fn test_scan_chunks_pattern_crlf_binary_and_len_one_equivalence() {
    let data = b"a\r\nb\r\nc\r\n";
    let mut h = Handle::open(data);
    let delimiter = vec![b'\r', b'\n'];
    let count = h.scan_chunks_pattern(4, &delimiter);
    assert_eq!(count, 2);
    assert_eq!(h.get_chunk(0).unwrap(), b"a\r\nb\r\n");
    assert_eq!(h.get_chunk(1).unwrap(), b"c\r\n");

    let binary_data = b"AB\x00\xff\x00CD\x00\xff\x00EF";
    let mut h = Handle::open(binary_data);
    let delimiter = [0x00, 0xff, 0x00];
    let count = h.scan_chunks_pattern(4, &delimiter);
    assert_eq!(count, 2);
    assert_eq!(h.get_chunk(0).unwrap(), &binary_data[..10]);

    let mut h1 = Handle::open(data);
    let mut h2 = Handle::open(data);
    let count_ex = h1.scan_chunks_ex(4, b'\n');
    let count_pattern = h2.scan_chunks_pattern(4, b"\n");
    assert_eq!(count_ex, count_pattern);
    for i in 0..count_ex {
        assert_eq!(h1.get_chunk(i).unwrap(), h2.get_chunk(i).unwrap());
    }
}

#[test]
fn test_scan_chunks_pattern_invalid_inputs_preserve_layout() {
    let mut h = Handle::open(b"aaa\nbbb\n");
    let previous_count = h.scan_chunks_ex(4, b'\n');
    assert_eq!(previous_count, 1);
    let previous_len = h.get_chunk(0).unwrap().len();

    assert_eq!(
        check_pattern_call(false, true, 0),
        Err(EngineError::ZeroDelimiterLen)
    );
    assert_eq!(
        check_pattern_call(false, true, 2),
        Err(EngineError::NullDelimiter)
    );
    assert_eq!(
        check_pattern_call(false, false, 0),
        Err(EngineError::ZeroDelimiterLen)
    );
    assert_eq!(
        check_pattern_call(false, false, isize::MAX as usize + 1),
        Err(EngineError::DelimiterLenRange)
    );
    assert_eq!(check_pattern_call(false, false, 2), Ok(()));

    assert_eq!(
        h.engine.scan_chunks_pattern(b"aaa\nbbb\n", 4, b""),
        Err(EngineError::ZeroDelimiterLen)
    );
    assert_eq!(h.get_chunk(0).unwrap().len(), previous_len);
}

#[test]
fn test_scan_chunks_pattern_edge_matrix_and_page_boundary() {
    let cases: &[PatternCase<'_>] = &[
        ("short", &b"hi"[..], &b"\r\n\r\n"[..], 1024, 1),
        ("exact", &b"AB"[..], &b"AB"[..], 1, 1),
        ("begin", &b"||tail"[..], &b"||"[..], 1, 1),
        ("eof", &b"tail||"[..], &b"||"[..], 1, 1),
        ("missing", &b"no marker"[..], &b"||"[..], 4, 1),
        ("consecutive", &b"||||"[..], &b"||"[..], 1, 2),
        ("aba", &b"xABABAy"[..], &b"ABA"[..], 1, 2),
        ("aaaa", &b"AAAAAA"[..], &b"AAAA"[..], 1, 2),
    ];

    for &(name, data, delimiter, chunk_size, expected_count) in cases {
        let mut h = Handle::open(data);
        let count = h.scan_chunks_pattern(chunk_size, delimiter);
        assert_eq!(count, expected_count, "wrong count for {name}");
    }

    let mut page_data = vec![b'x'; 4095];
    page_data.extend_from_slice(b"XYZtail");
    let mut h = Handle::open(&page_data);
    let count = h.scan_chunks_pattern(4090, b"XYZ");
    assert_eq!(count, 2);
    assert_eq!(
        h.get_chunk(0).unwrap().len(),
        4098,
        "pattern crossing page boundary not found"
    );
}

#[test]
fn test_scan_chunks_pattern_mode_switching() {
    let mut h = Handle::open(b"aa\r\nbb\r\ncc\r\ndd\r\n");
    let pattern = b"\r\n";
    assert!(h.scan_chunks_pattern(4, pattern) > 0);
    assert!(h.scan_chunks_ex(4, b'\n') > 0);
    assert!(h.scan_fixed(4) > 0);
    assert!(h.partition_records(2, b'\n') > 0);
    assert!(h.scan_chunks_pattern(4, pattern) > 0);
    assert_eq!(h.get_chunk(0).unwrap(), b"aa\r\nbb\r\n");
}

#[test]
fn test_scan_chunks_pattern_differential_randomized() {
    let mut state = 0x5eed_u64;

    for case in 0..256usize {
        let next = |state: &mut u64| {
            *state = state
                .wrapping_mul(6364136223846793005)
                .wrapping_add(1442695040888963407);
            (*state >> 32) as u8
        };
        let data_len = (next(&mut state) as usize) % 192;
        let mut data = vec![0u8; data_len];
        for byte in &mut data {
            *byte = next(&mut state);
        }
        let delimiter_len = 1 + (next(&mut state) as usize % 8);
        let mut delimiter = vec![0u8; delimiter_len];
        for byte in &mut delimiter {
            *byte = next(&mut state);
        }
        let chunk_size = next(&mut state) as usize % 32;
        let expected = naive_pattern_boundaries(&data, chunk_size, &delimiter);
        let rust = find_chunk_boundaries_pattern(&data, chunk_size, &delimiter);
        assert_eq!(rust, expected, "Rust oracle mismatch in case {case}");

        let mut h = Handle::open(&data);
        let count = h.scan_chunks_pattern(chunk_size, &delimiter);
        assert_eq!(count, expected.len(), "count mismatch in case {case}");
        for (index, &(start, end)) in expected.iter().enumerate() {
            let view = h.get_chunk(index).unwrap();
            assert_eq!(view.len(), end - start, "length mismatch in case {case}");
            assert_eq!(view, &data[start..end], "content mismatch in case {case}");
        }
    }
}

#[test]
fn test_oob_after_iteration_newline() {
    let mut h = Handle::open(b"first\nsecond\nthird\n");
    let count = h.scan_chunks_ex(1, b'\n');
    assert_eq!(count, 3);

    let error = h.get_chunk(999).unwrap_err();
    let msg = error.message();
    assert!(
        msg.contains("out of bounds"),
        "expected bounds error, got: {msg}"
    );

    let error = check_chunk_call(false, true).unwrap_err();
    let msg2 = error.message();
    assert!(msg2.contains("out_chunk is null"), "got: {msg2}");
}

// Fixed-size chunking

#[test]
fn test_scan_fixed_exact_split() {
    let mut h = Handle::open(b"AAAABBBBCCCCDDDDEEEEFFFF");
    let count = h.scan_fixed(4);
    assert_eq!(count, 6);

    let mut total = 0usize;
    for i in 0..count {
        let view = h.get_chunk(i).unwrap();
        assert_eq!(view.len(), 4, "chunk {i} must be exactly 4 bytes");
        total += view.len();
    }
    assert_eq!(total, 24);
}

#[test]
fn test_scan_fixed_short_last_chunk() {
    let mut h = Handle::open(b"XXXXXXXXX");
    let count = h.scan_fixed(4);
    assert_eq!(count, 3);
    assert_eq!(h.get_chunk(0).unwrap().len(), 4);
    assert_eq!(h.get_chunk(1).unwrap().len(), 4);
    assert_eq!(h.get_chunk(2).unwrap().len(), 1);
}

#[test]
fn test_scan_fixed_size_larger_than_file() {
    let mut h = Handle::open(b"tiny");
    let count = h.scan_fixed(1024);
    assert_eq!(count, 1);
    assert_eq!(h.get_chunk(0).unwrap().len(), 4);
}

#[test]
fn test_scan_fixed_chunk_size_zero() {
    let mut h = Handle::open(b"abcdef");
    let count = h.scan_fixed(0);
    assert_eq!(count, 6, "chunk_size=0 clamps to 1 and gives 6 chunks");
    for i in 0..count {
        assert_eq!(h.get_chunk(i).unwrap().len(), 1);
    }
}

#[test]
fn test_scan_fixed_empty_file() {
    let mut h = Handle::open(b"");
    let count = h.scan_fixed(256);
    assert_eq!(count, 0);
}

#[test]
fn test_mode_switching_fixed_and_delimited() {
    let mut h = Handle::open(b"aaa\nbbb\nccc\nddd\n");

    let dc = h.scan_chunks_ex(4, b'\n');
    assert!(dc > 0);
    assert_eq!(h.get_chunk(0).unwrap().len(), 8);

    let fc = h.scan_fixed(4);
    assert!(fc > 0);
    assert_eq!(h.get_chunk(0).unwrap().len(), 4);

    let dc2 = h.scan_chunks_ex(4, b'\n');
    assert_eq!(dc2, dc);
    assert_eq!(h.get_chunk(0).unwrap().len(), 8);

    let fc2 = h.scan_fixed(8);
    assert!(fc2 > 0);
    assert_ne!(fc2, fc);
    assert_eq!(h.get_chunk(0).unwrap().len(), 8);
}

#[test]
fn test_scan_fixed_coverage_equals_file_len() {
    let content = b"0123456789ABCDEF";
    let mut h = Handle::open(content);
    let count = h.scan_fixed(3);
    let mut total = 0usize;
    let mut pos = 0usize;
    for i in 0..count {
        let slice = h.get_chunk(i).unwrap();
        assert_eq!(slice, &content[pos..pos + slice.len()]);
        total += slice.len();
        pos += slice.len();
    }
    assert_eq!(total, content.len());
}

#[test]
fn test_scan_fixed_oob() {
    let mut h = Handle::open(b"hello");
    let count = h.scan_fixed(2);
    assert_eq!(count, 3);
    assert_eq!(h.get_chunk(3), Err(EngineError::IndexOutOfBounds));
}

// Record partitions

#[test]
fn test_partition_records_zero_partitions() {
    let mut h = Handle::open(b"a\nb\nc\n");
    assert_eq!(h.partition_records(0, b'\n'), 0);
    assert_eq!(
        h.engine.partition_records(b"a\nb\nc\n", 0, b'\n'),
        Err(EngineError::ZeroPartitions)
    );
}

#[test]
fn test_partition_records_basic() {
    let content = b"record1\nrecord2\nrecord3\nrecord4\n";
    let mut h = Handle::open(content);

    let count = h.partition_records(2, b'\n');
    assert!(count == 2);
    assert!(!h.get_chunk(0).unwrap().is_empty());
    assert!(!h.get_chunk(1).unwrap().is_empty());
    assert_eq!(h.get_chunk(2), Err(EngineError::IndexOutOfBounds));

    let mut total = 0usize;
    for i in 0..count {
        total += h.get_chunk(i).unwrap().len();
    }
    assert_eq!(total, content.len());
}

#[test]
fn test_partition_records_no_delimiter() {
    let content = b"no_newlines_at_all";
    let mut h = Handle::open(content);
    let count = h.partition_records(8, b'\n');
    assert_eq!(count, 1);
    assert_eq!(h.get_chunk(0).unwrap().len(), content.len());
    assert!(h.get_chunk(1).is_err());
}

#[test]
fn test_partition_records_empty_file() {
    let mut h = Handle::open(b"");
    assert_eq!(h.partition_records(4, b'\n'), 0);
}

#[test]
fn test_partition_mode_switching_delimited_fixed_partitioned() {
    let mut content = Vec::new();
    for i in 0..10 {
        content.extend_from_slice(format!("line{i}\n").as_bytes());
    }
    let mut h = Handle::open(&content);

    let dc = h.scan_chunks_ex(12, b'\n');
    assert!(dc > 0);

    let fc = h.scan_fixed(10);
    assert!(fc > 0);
    assert_eq!(h.get_chunk(0).unwrap().len(), 10);

    let pc = h.partition_records(3, b'\n');
    assert_eq!(pc, 3);
    let mut total = 0usize;
    for i in 0..pc {
        total += h.get_chunk(i).unwrap().len();
    }
    assert_eq!(total, content.len());

    h.scan_fixed(20);
    assert_eq!(h.get_chunk(0).unwrap().len(), 20);

    h.scan_chunks_ex(12, b'\n');
    assert!(!h.get_chunk(0).unwrap().is_empty());

    let pc2 = h.partition_records(5, b'\n');
    assert_eq!(pc2, 5);
}

#[test]
fn test_partition_records_giant_record() {
    let mut content = b"small1\n".to_vec();
    content.extend(vec![b'x'; 5000]);
    content.extend_from_slice(b"small2\n");
    let mut h = Handle::open(&content);

    let count = h.partition_records(32, b'\n');
    assert!(count < 32, "giant record should collapse boundaries");
    assert!(count > 0, "should have at least one partition");

    let mut total = 0usize;
    for i in 0..count {
        total += h.get_chunk(i).unwrap().len();
    }
    assert_eq!(total, content.len());

    for i in 0..count.saturating_sub(1) {
        let view = h.get_chunk(i).unwrap();
        if let Some(last_byte) = view.last() {
            assert_eq!(*last_byte, b'\n', "non-final partition must end after \\n");
        }
    }
}

#[test]
fn messages_are_terminated_and_cut_to_the_buffer() {
    assert_eq!(error_bytes("handle is null"), b"handle is null\0".to_vec());
    let long = "x".repeat(1000);
    let bytes = error_bytes(&long);
    assert_eq!(bytes.len(), MAX_ERROR_LEN);
    assert_eq!(bytes[MAX_ERROR_LEN - 1], 0);
    assert!(bytes[..MAX_ERROR_LEN - 1].iter().all(|b| *b == b'x'));
}
