//! Datasets of several sources, and the lines that ranges are printed as.

use mmap_chunker_core::logical::{
    next_record_boundary, plan_logical_partitions, BoundarySearchState, WorkerAssignment,
};
use mmap_chunker_core::rows::{emit_file_partitions, emit_partitions_for_delimiter, emit_ranges};
use mmap_chunker_core::scanner::find_partition_boundaries;
use mmap_chunker_core::MmapChunker;

fn chunkers<'a>(sources: &[&'a [u8]]) -> Vec<MmapChunker<'a>> {
    sources.iter().map(|data| MmapChunker::new(data)).collect()
}

fn plan(sources: &[&[u8]], parts: usize) -> Vec<WorkerAssignment> {
    plan_logical_partitions(&chunkers(sources), parts, b'\n').unwrap()
}

fn triples(assignment: &WorkerAssignment) -> Vec<(usize, usize, usize)> {
    assignment
        .ranges
        .iter()
        .map(|range| {
            assert_eq!(range.length, range.end_exclusive - range.start);
            (range.source_index, range.start, range.end_exclusive)
        })
        .collect()
}

#[test]
fn bounded_multi_file_planning_proof() {
    const FILE_COUNT: usize = 100;
    const FILE_SIZE: usize = 1024 * 1024;
    const PARTS: usize = 8;
    let mut fixture = vec![b'x'; FILE_SIZE];
    for offset in (4095..FILE_SIZE).step_by(4096) {
        fixture[offset] = b'\n';
    }
    let sources: Vec<&[u8]> = (0..FILE_COUNT).map(|_| &fixture[..]).collect();
    let assignments = plan(&sources, PARTS);
    assert!(!assignments.is_empty());
    assert!(assignments.len() <= PARTS);
    let mut covered = vec![0usize; FILE_COUNT];
    for (worker, assignment) in assignments.iter().enumerate() {
        assert_eq!(assignment.worker_index, worker);
        for (source, start, end) in triples(assignment) {
            assert_eq!(covered[source], start);
            assert!(end > start);
            assert_eq!(fixture[end - 1], b'\n');
            covered[source] = end;
        }
    }
    assert!(covered.iter().all(|end| *end == FILE_SIZE));
}

#[test]
fn a_source_boundary_is_a_record_boundary() {
    let assignments = plan(&[b"aaaa", b"bbbb"], 2);
    assert_eq!(assignments.len(), 2);
    assert_eq!(triples(&assignments[0]), vec![(0, 0, 4)]);
    assert_eq!(triples(&assignments[1]), vec![(1, 0, 4)]);
}

#[test]
fn a_worker_may_read_from_several_sources() {
    let assignments = plan(&[b"a\n", b"", b"b\nc\nd\n"], 2);
    // The target is offset 4, which is moved to the end of the second record
    // of the last source.
    assert_eq!(assignments.len(), 2);
    assert_eq!(triples(&assignments[0]), vec![(0, 0, 2), (2, 0, 4)]);
    assert_eq!(triples(&assignments[1]), vec![(2, 4, 6)]);
}

#[test]
fn empty_sources_take_no_rows() {
    assert!(plan(&[b"", b"", b""], 4).is_empty());
    assert!(plan(&[], 4).is_empty());
    assert!(plan(&[b"a\n"], 0).is_empty());
    for assignment in plan(&[b"", b"a\n", b""], 3) {
        for (source, _, _) in triples(&assignment) {
            assert_eq!(source, 1);
        }
    }
}

#[test]
fn one_source_is_planned_as_it_would_be_alone() {
    let data = b"record1\nrecord2\nrecord3\nrecord4\nrecord5\n";
    for parts in 1..12usize {
        let expected = find_partition_boundaries(data, parts, b'\n');
        let assignments = plan(&[data], parts);
        let actual: Vec<(usize, usize)> = assignments
            .iter()
            .map(|assignment| {
                let ranges = triples(assignment);
                assert_eq!(ranges.len(), 1);
                (ranges[0].1, ranges[0].2)
            })
            .collect();
        assert_eq!(actual, expected);
    }
}

#[test]
fn every_byte_has_one_worker() {
    let sources: [&[u8]; 4] = [b"aa\nb\n", b"\n\n\n", b"no end", b"x\nyy\nzzz\n"];
    for parts in 1..10usize {
        let mut seen: Vec<Vec<usize>> = sources.iter().map(|s| vec![0; s.len()]).collect();
        for assignment in plan(&sources, parts) {
            for (source, start, end) in triples(&assignment) {
                for count in &mut seen[source][start..end] {
                    *count += 1;
                }
            }
        }
        assert!(seen.iter().flatten().all(|count| *count == 1));
    }
}

#[test]
fn a_boundary_search_remembers_what_it_found() {
    let data = b"aaa\nbb\nc";
    let mut state = BoundarySearchState::new();
    assert_eq!(next_record_boundary(data, 1, b'\n', &mut state), 4);
    assert_eq!(next_record_boundary(data, 3, b'\n', &mut state), 4);
    assert_eq!(next_record_boundary(data, 4, b'\n', &mut state), 7);
    assert_eq!(next_record_boundary(data, 7, b'\n', &mut state), 8);
    assert_eq!(next_record_boundary(data, 8, b'\n', &mut state), 8);
}

#[test]
fn ranges_are_printed_one_to_a_line() {
    let ranges = [(0usize, 12usize), (12, 20)];
    assert_eq!(emit_ranges(&ranges, None), "0\t0\t12\t12\n1\t12\t20\t8\n");
    assert_eq!(emit_ranges(&ranges, Some(1)), "1\t12\t20\t8\n");
    assert_eq!(emit_ranges(&ranges, Some(2)), "");
    assert_eq!(emit_ranges(&[], None), "");
}

#[test]
fn mapped_bytes_are_planned_and_printed() {
    let data = b"a\nb\nc\nd\n";
    assert_eq!(
        emit_partitions_for_delimiter(data, 2, b"\n", None),
        "0\t0\t6\t6\n1\t6\t8\t2\n"
    );
    assert_eq!(
        emit_partitions_for_delimiter(b"a\r\nb\r\nc\r\nd\r\n", 2, b"\r\n", Some(1)),
        "1\t9\t12\t3\n"
    );
    assert_eq!(emit_partitions_for_delimiter(b"", 3, b"\n", None), "");
}

#[test]
fn several_sources_are_printed_by_worker_and_source() {
    let sources = chunkers(&[b"a\n", b"", b"b\nc\nd\n"]);
    assert_eq!(
        emit_file_partitions(&sources, 2, b'\n').unwrap(),
        "0\t0\t0\t2\t2\n0\t2\t0\t4\t4\n1\t2\t4\t6\t2\n"
    );
    assert_eq!(
        emit_file_partitions(&chunkers(&[b""]), 2, b'\n').unwrap(),
        ""
    );
}
