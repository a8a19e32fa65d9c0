//! Fixed layouts at the edges of the number range, against wide arithmetic.

use mmap_chunker_core::ranges::{proportional_target, ranges_from_boundaries};
use mmap_chunker_core::scanner::{fixed_chunk_bounds, fixed_chunk_count};

fn oracle_count(file_len: usize, chunk_size: usize) -> usize {
    if file_len == 0 {
        return 0;
    }
    let size = chunk_size.max(1) as u128;
    (((file_len as u128) + size - 1) / size) as usize
}

fn oracle_bounds(file_len: usize, chunk_size: usize, index: usize) -> Option<(usize, usize)> {
    let count = oracle_count(file_len, chunk_size);
    if index >= count {
        return None;
    }
    let size = chunk_size.max(1) as u128;
    let start = index as u128 * size;
    let end = (start + size).min(file_len as u128);
    Some((start as usize, end as usize))
}

fn assert_case(file_len: usize, chunk_size: usize, index: usize) {
    let actual_count = fixed_chunk_count(file_len, chunk_size);
    assert_eq!(actual_count, oracle_count(file_len, chunk_size));

    let actual = fixed_chunk_bounds(file_len, chunk_size, index);
    assert_eq!(actual, oracle_bounds(file_len, chunk_size, index));

    if file_len == 0 {
        assert_eq!(actual_count, 0);
        assert!(actual.is_none());
        return;
    }
    if let Some((start, end)) = actual {
        assert!(start < end);
        assert!(end <= file_len);
    }
    assert_eq!(fixed_chunk_bounds(file_len, chunk_size, actual_count), None);
    let last = fixed_chunk_bounds(file_len, chunk_size, actual_count - 1).unwrap();
    assert_eq!(last.1, file_len);
}

#[test]
fn fixed_layouts_agree_with_wide_arithmetic() {
    for bit in 0..usize::BITS {
        let power = 1usize << bit;
        let extremes = [
            0,
            1,
            usize::MAX,
            usize::MAX - 1,
            power,
            power.saturating_sub(1),
            power.saturating_add(1),
        ];
        for &length in &extremes {
            for &size in &extremes {
                for &index in &extremes {
                    assert_case(length, size, index);
                }
            }
        }
    }
}

#[test]
fn targets_do_not_overflow() {
    assert_eq!(proportional_target(100, 1, 3), 33);
    assert_eq!(proportional_target(usize::MAX, 1, 2), usize::MAX / 2);
    assert_eq!(proportional_target(usize::MAX, 2, 3), (usize::MAX / 3) * 2);
}

#[test]
fn boundaries_become_ranges_without_empty_ones() {
    assert_eq!(
        ranges_from_boundaries(10, &[4, 4, 7]),
        vec![(0, 4), (4, 7), (7, 10)]
    );
    assert_eq!(ranges_from_boundaries(10, &[10]), vec![(0, 10)]);
    assert_eq!(ranges_from_boundaries(10, &[]), vec![(0, 10)]);
}
