//! Byte and pattern search.

use mmap_chunker_core::search::{find_byte_swar, find_pattern_after, find_pattern_in_slice};

fn find_byte_scalar(haystack: &[u8], delimiter: u8) -> Option<usize> {
    haystack.iter().position(|&b| b == delimiter)
}

// Correctness oracle

const DELIMITERS: &[u8] = &[0x00, 0x01, b'\n', b',', b'|', 0x7f, 0x80, 0xfe, 0xff];
const LENGTHS: &[usize] = &[
    0, 1, 2, 3, 7, 8, 9, 15, 16, 17, 31, 32, 33, 63, 64, 65, 127, 128, 129, 200, 256,
];

fn assert_swar_eq_scalar(data: &[u8], delim: u8, label: &str) {
    let s = find_byte_scalar(data, delim);
    let w = find_byte_swar(data, delim);
    assert_eq!(
        s,
        w,
        "SWAR != scalar: {label}  data[0]={:02x} len={} delim={:02x}",
        data.first().copied().unwrap_or(0),
        data.len(),
        delim
    );
}

fn deterministic_bytes(seed: u64, len: usize) -> Vec<u8> {
    let mut state = seed;
    (0..len)
        .map(|_| {
            state = state
                .wrapping_mul(6364136223846793005)
                .wrapping_add(1442695040888963407);
            (state >> 32) as u8
        })
        .collect()
}

#[test]
fn correctness_empty() {
    for &d in DELIMITERS {
        assert_swar_eq_scalar(&[], d, "empty");
    }
}

#[test]
fn correctness_all_lengths_no_match() {
    for &len in LENGTHS {
        let delim = b'\n';
        let data = vec![b'x'; len];
        assert_swar_eq_scalar(&data, delim, &format!("len={len} nomatch"));
    }
}

#[test]
fn correctness_all_lengths_all_match() {
    for &len in LENGTHS {
        if len == 0 {
            continue;
        }
        let delim = b'\n';
        let data = vec![delim; len];
        assert_swar_eq_scalar(&data, delim, &format!("len={len} allmatch"));
    }
}

#[test]
fn correctness_match_at_every_position() {
    for &len in &[1, 8, 16, 32, 64, 128, 200] {
        for pos in 0..len {
            let delim = b'\n';
            let mut data = vec![b'x'; len];
            data[pos] = delim;
            assert_swar_eq_scalar(&data, delim, &format!("len={len} pos={pos}"));
        }
    }
}

#[test]
fn correctness_all_delimiters() {
    let len = 256usize;
    for &delim in DELIMITERS {
        let other: u8 = if delim == 0x00 { 0x01 } else { 0x00 };
        let data = vec![other; len];
        assert_swar_eq_scalar(&data, delim, &format!("delim={delim:02x} nomatch"));
        let mut data = vec![other; len];
        data[len / 2] = delim;
        assert_swar_eq_scalar(&data, delim, &format!("delim={delim:02x} middle"));
    }
}

#[test]
fn correctness_unaligned_starts() {
    let base = deterministic_bytes(42, 256);
    for start in 0..16 {
        for &delim in &[b'\n', b',', 0x00, 0xff] {
            let slice = &base[start..];
            assert_swar_eq_scalar(
                slice,
                delim,
                &format!("unaligned start={start} delim={delim:02x}"),
            );
        }
    }
}

#[test]
fn correctness_match_at_boundaries() {
    let delim = b'\n';
    for &len in &[8, 9, 15, 16, 17, 24, 25, 31, 32, 33] {
        let mut data = vec![b'x'; len];
        for pos in [0, 7, 8, 15, 16, 23, 24, 31, 32].iter().copied() {
            if pos < len {
                data[pos] = delim;
                assert_swar_eq_scalar(
                    &data,
                    delim,
                    &format!("len={len} word-boundary pos={pos}"),
                );
                data[pos] = b'x';
            }
        }
        data[len - 1] = delim;
        assert_swar_eq_scalar(&data, delim, &format!("len={len} last-byte"));
    }
}

#[test]
fn correctness_deterministic_random() {
    for seed in 0..20u64 {
        let data = deterministic_bytes(seed, 1024);
        for delim in [b'\n', b',', b'|', 0x00, 0xff] {
            assert_swar_eq_scalar(
                &data,
                delim,
                &format!("random seed={seed} delim={delim:02x}"),
            );
        }
    }
}

#[test]
fn correctness_many_matches() {
    let delim = b'\n';
    let mut data = Vec::with_capacity(10000);
    for i in 0..1000 {
        data.extend_from_slice(b"line_content_");
        data.extend_from_slice(&(i as u32).to_le_bytes());
        data.push(delim);
    }
    for &delim_test in &[b'\n', b'l', b'_', 0x00, 0xff] {
        assert_swar_eq_scalar(
            &data,
            delim_test,
            &format!("many_matches delim={delim_test:02x}"),
        );
    }
}

#[test]
fn pattern_search_finds_the_first_occurrence() {
    assert_eq!(find_pattern_in_slice(b"aa--bb--", b"--"), Some(2));
    assert_eq!(find_pattern_in_slice(b"aa-bb-", b"--"), None);
    assert_eq!(find_pattern_in_slice(b"-", b"--"), None);
    assert_eq!(find_pattern_in_slice(b"aaab", b"aab"), Some(1));
}

#[test]
fn pattern_search_from_an_offset_skips_what_starts_before_it() {
    assert_eq!(find_pattern_after(b"aa--bb--", b"--", 2), Some(2));
    assert_eq!(find_pattern_after(b"aa--bb--", b"--", 3), Some(6));
    assert_eq!(find_pattern_after(b"aa--bb--", b"--", 8), None);
}
