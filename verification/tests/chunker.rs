//! Random access to chunks.

use mmap_chunker_core::MmapChunker;

#[test]
fn test_chunker_open_empty_file() {
    let file = MmapChunker::new(b"");
    assert!(file.is_empty());
    assert_eq!(file.len(), 0);
    assert_eq!(file.chunk_count(), 0);
    assert_eq!(file.as_bytes(), b"");
}

#[test]
fn test_chunker_scan_delimited_basic() {
    let mut file = MmapChunker::new(b"aaa\nbbb\nccc\nddd\n");
    let count = file.scan_delimited(4, b'\n');
    assert_eq!(count, 2);
    assert_eq!(file.chunk_count(), 2);

    assert_eq!(file.get_chunk(0), Some(b"aaa\nbbb\n" as &[u8]));
    assert_eq!(file.get_chunk(1), Some(b"ccc\nddd\n" as &[u8]));
    assert_eq!(file.get_chunk(2), None);
}

#[test]
fn test_chunker_get_chunk_before_scan() {
    let file = MmapChunker::new(b"some data\n");
    assert_eq!(file.chunk_count(), 0);
    assert_eq!(file.get_chunk(0), None);
}

#[test]
fn test_chunker_scan_fixed() {
    let mut file = MmapChunker::new(b"AAAABBBBCCCCDDDD");
    let count = file.scan_fixed(4);
    assert_eq!(count, 4);
    assert_eq!(file.chunk_count(), 4);

    assert_eq!(file.get_chunk(0), Some(b"AAAA" as &[u8]));
    assert_eq!(file.get_chunk(1), Some(b"BBBB" as &[u8]));
    assert_eq!(file.get_chunk(2), Some(b"CCCC" as &[u8]));
    assert_eq!(file.get_chunk(3), Some(b"DDDD" as &[u8]));
    assert_eq!(file.get_chunk(4), None);
}

#[test]
fn test_chunker_scan_fixed_short_last() {
    let mut file = MmapChunker::new(b"XXXXXXXXX");
    let count = file.scan_fixed(4);
    assert_eq!(count, 3);
    assert_eq!(file.get_chunk(0).map(|c| c.len()), Some(4));
    assert_eq!(file.get_chunk(1).map(|c| c.len()), Some(4));
    assert_eq!(file.get_chunk(2).map(|c| c.len()), Some(1));
}

#[test]
fn test_chunker_partition_records() {
    let mut file = MmapChunker::new(b"record1\nrecord2\nrecord3\nrecord4\n");
    let count = file.partition_records(2, b'\n');
    assert!(count == 2);

    let mut total = 0usize;
    for i in 0..count {
        let chunk = file.get_chunk(i).unwrap();
        total += chunk.len();
        assert!(!chunk.is_empty());
    }
    assert_eq!(total, file.len());
}

#[test]
fn test_chunker_as_bytes() {
    let file = MmapChunker::new(b"hello world!");
    assert_eq!(file.as_bytes(), b"hello world!");
    assert_eq!(file.len(), 12);
    assert!(!file.is_empty());
}

#[test]
fn test_chunker_mode_switching() {
    let mut file = MmapChunker::new(b"aaa\nbbb\nccc\nddd\n");

    let dc = file.scan_delimited(4, b'\n');
    assert!(dc > 0);

    let fc = file.scan_fixed(4);
    assert!(fc > 0);
    assert_eq!(file.chunk_count(), fc);

    let dc2 = file.scan_delimited(4, b'\n');
    assert_eq!(dc2, dc);

    let pc = file.partition_records(2, b'\n');
    assert_eq!(pc, 2);
    assert_eq!(file.chunk_count(), 2);
}

#[test]
fn test_chunker_large_file() {
    let data = vec![b'x'; 100_000];
    let mut file = MmapChunker::new(&data);
    assert_eq!(file.len(), 100_000);

    let count = file.scan_fixed(4096);
    assert!(count > 0);

    let mut total = 0usize;
    for i in 0..count {
        let chunk = file.get_chunk(i).unwrap();
        total += chunk.len();
    }
    assert_eq!(total, 100_000);
}

#[test]
fn cursors_give_the_chunks_of_a_scan() {
    let data = b"a\r\nbb\r\nccc\r\ndddd\r\n";
    let mut file = MmapChunker::new(data);
    let lines: Vec<&[u8]> = file.delimited_cursor(4, b'\n').collect();
    let count = file.scan_delimited(4, b'\n');
    assert_eq!(lines.len(), count);
    for (i, line) in lines.iter().enumerate() {
        assert_eq!(file.get_chunk(i), Some(*line));
    }
    let records: Vec<&[u8]> = file.delimited_cursor_pattern(4, b"\r\n").collect();
    let count = file.scan_delimited_pattern(4, b"\r\n");
    assert_eq!(records.len(), count);
    for (i, record) in records.iter().enumerate() {
        assert_eq!(file.get_chunk(i), Some(*record));
    }
}

#[test]
fn pattern_partitions_end_after_the_whole_pattern() {
    let mut file = MmapChunker::new(b"a\r\nbb\r\nccc\r\nd\r\n");
    assert_eq!(file.partition_records_pattern(2, b"\r\n"), 2);
    assert_eq!(file.get_chunk(0), Some(b"a\r\nbb\r\nccc\r\n" as &[u8]));
    assert_eq!(file.get_chunk(1), Some(b"d\r\n" as &[u8]));
}
