//! Partitions of an ordered dataset of several sources.
//!
//! The sources stay separate: one after another they make up one logical run
//! of bytes, on which the cuts are planned, and every planned interval is then
//! split into ranges of the single sources.

use crate::balance::{lemma_step, lemma_targets_ordered};
use crate::chunker::MmapChunker;
use crate::ranges::{
    cut_points, cuts_forward, ideal_target, law_partition_caps_at_len, law_partition_covers,
    law_tiling_is_exact_cover, lemma_ideal_target, lemma_no_points_past_end, lemma_tiles_ordered,
    partition, ranges_between, tiles,
};
use crate::scanner::{cut_at_record, ends_with_delimiter, lemma_record_end, record_end};
use crate::search::{find_pattern_after, first_from, lemma_first_from_is_first, occurs_at};
use vstd::prelude::*;

verus! {

/// What went wrong where the logical targets leave the range of `u128`.
pub const TARGET_OVERFLOW: &'static str = "logical target arithmetic overflow";

/// Bytes in the first `k` sources: the logical offset at which source `k`
/// starts.
pub open spec fn start_of(sources: Seq<Seq<u8>>, k: int) -> int
    decreases k,
{
    if k <= 0 {
        0
    } else {
        start_of(sources, k - 1) + sources[k - 1].len()
    }
}

/// Bytes in all the sources.
pub open spec fn logical_len(sources: Seq<Seq<u8>>) -> int {
    start_of(sources, sources.len() as int)
}

/// The last of the sources `0..=k` that starts at or before a logical offset;
/// `sources.len()` stands for the end of the dataset.
pub open spec fn source_at(sources: Seq<Seq<u8>>, k: int, offset: int) -> int
    decreases k,
{
    if k <= 0 {
        0
    } else if start_of(sources, k) <= offset {
        k
    } else {
        source_at(sources, k - 1, offset)
    }
}

/// Where a logical target is cut: in place where a source starts or ends, and
/// otherwise at the end of the record found from there in its source.
pub open spec fn logical_cut(sources: Seq<Seq<u8>>, delimiter: u8) -> spec_fn(int) -> int {
    |target: int|
        {
            let k = source_at(sources, sources.len() as int, target);
            if start_of(sources, k) == target {
                target
            } else {
                start_of(sources, k) + record_end(
                    sources[k],
                    seq![delimiter],
                    target - start_of(sources, k),
                )
            }
        }
}

/// A logical offset that no record straddles: the start or end of a source, or
/// the place after a delimiter inside one.
pub open spec fn between_records(sources: Seq<Seq<u8>>, delimiter: u8, offset: int) -> bool {
    let k = source_at(sources, sources.len() as int, offset);
    start_of(sources, k) == offset || ends_with_delimiter(
        sources[k],
        seq![delimiter],
        offset - start_of(sources, k),
    )
}

/// The part of a logical interval that lies in source `k`, as local start and
/// end.
pub open spec fn part_in(sources: Seq<Seq<u8>>, k: int, start: int, end: int) -> (int, int) {
    let low = start_of(sources, k);
    let high = start_of(sources, k + 1);
    (
        (if start > low {
            start
        } else {
            low
        }) - low,
        (if end < high {
            end
        } else {
            high
        }) - low,
    )
}

/// The parts of a logical interval in the first `k` sources, in source order,
/// empty ones left out: source, start, end and length of each.
pub open spec fn parts_of(sources: Seq<Seq<u8>>, k: int, start: int, end: int) -> Seq<
    (int, int, int, int),
>
    decreases k,
{
    if k <= 0 {
        Seq::empty()
    } else {
        let part = part_in(sources, k - 1, start, end);
        if part.0 < part.1 {
            parts_of(sources, k - 1, start, end).push((k - 1, part.0, part.1, part.1 - part.0))
        } else {
            parts_of(sources, k - 1, start, end)
        }
    }
}

/// The parts of each interval.
pub open spec fn interval_parts(sources: Seq<Seq<u8>>, intervals: Seq<(int, int)>) -> Seq<
    Seq<(int, int, int, int)>,
> {
    intervals.map_values(
        |interval: (int, int)|
            parts_of(sources, sources.len() as int, interval.0, interval.1),
    )
}

/// The logical intervals of at most `n` workers.
pub open spec fn worker_intervals(sources: Seq<Seq<u8>>, n: int, delimiter: u8) -> Seq<(int, int)> {
    partition(logical_len(sources), n, logical_cut(sources, delimiter))
}

/// The source ranges of each worker.
pub open spec fn worker_ranges(sources: Seq<Seq<u8>>, n: int, delimiter: u8) -> Seq<
    Seq<(int, int, int, int)>,
> {
    interval_parts(sources, worker_intervals(sources, n, delimiter))
}

/// Whether computing the targets `i..n` of `len` bytes in turn leaves the
/// range of `u128` before a cut reaches the end of the dataset.
pub open spec fn targets_overflow(
    len: int,
    n: int,
    i: int,
    last: int,
    cut: spec_fn(int) -> int,
) -> bool
    decreases n - i,
{
    if i >= n {
        false
    } else if len * i > u128::MAX {
        true
    } else if ideal_target(len, n, i) <= last {
        targets_overflow(len, n, i + 1, last, cut)
    } else if cut(ideal_target(len, n, i)) == len {
        false
    } else {
        targets_overflow(len, n, i + 1, cut(ideal_target(len, n, i)), cut)
    }
}

/// Sources start in order.
proof fn lemma_starts_ordered(sources: Seq<Seq<u8>>, j: int, k: int)
    requires
        0 <= j <= k <= sources.len(),
    ensures
        0 <= start_of(sources, j) <= start_of(sources, k),
        j < k ==> start_of(sources, j + 1) <= start_of(sources, k),
    decreases k,
{
    if j < k {
        lemma_starts_ordered(sources, j, k - 1);
    } else if k > 0 {
        lemma_starts_ordered(sources, k - 1, k - 1);
    }
}

/// The source found for an offset starts at or before it, and the next one
/// after it.
proof fn lemma_source_at(sources: Seq<Seq<u8>>, k: int, offset: int)
    requires
        0 <= k <= sources.len(),
        0 <= offset,
    ensures
        0 <= source_at(sources, k, offset) <= k,
        start_of(sources, source_at(sources, k, offset)) <= offset,
        source_at(sources, k, offset) < k ==> offset < start_of(
            sources,
            source_at(sources, k, offset) + 1,
        ),
    decreases k,
{
    if k > 0 && start_of(sources, k) > offset {
        lemma_source_at(sources, k - 1, offset);
    }
}

/// An offset inside source `k` is found there.
proof fn lemma_source_at_is(sources: Seq<Seq<u8>>, n: int, k: int, offset: int)
    requires
        0 <= k <= n <= sources.len(),
        start_of(sources, k) <= offset,
        k < n ==> offset < start_of(sources, k + 1),
    ensures
        source_at(sources, n, offset) == k,
    decreases n,
{
    if k < n {
        lemma_starts_ordered(sources, k + 1, n);
        lemma_source_at_is(sources, n - 1, k, offset);
    }
}

/// Logical cuts move forward and land between records.
proof fn lemma_logical_cut(sources: Seq<Seq<u8>>, delimiter: u8)
    ensures
        cuts_forward(logical_len(sources), logical_cut(sources, delimiter)),
        forall|t: int|
            0 < t < logical_len(sources) && #[trigger] logical_cut(sources, delimiter)(t)
                < logical_len(sources) ==> between_records(
                sources,
                delimiter,
                logical_cut(sources, delimiter)(t),
            ),
{
    let n = sources.len() as int;
    let cut = logical_cut(sources, delimiter);
    assert forall|t: int| 0 < t < logical_len(sources) implies {
        &&& t <= #[trigger] cut(t) <= logical_len(sources)
        &&& cut(t) < logical_len(sources) ==> between_records(sources, delimiter, cut(t))
    } by {
        let k = source_at(sources, n, t);
        lemma_source_at(sources, n, t);
        if start_of(sources, k) != t {
            let local = t - start_of(sources, k);
            lemma_record_end(sources[k], seq![delimiter], local);
            lemma_starts_ordered(sources, k + 1, n);
            let c = cut(t);
            if c < start_of(sources, k + 1) {
                lemma_source_at_is(sources, n, k, c);
            } else {
                let next = source_at(sources, n, c);
                lemma_source_at(sources, n, c);
                lemma_starts_ordered(sources, k, n);
                if next <= k {
                    lemma_starts_ordered(sources, next + 1, k + 1);
                } else {
                    lemma_starts_ordered(sources, k + 1, next);
                }
                assert(start_of(sources, next) == c);
            }
        }
    }
}

/// The parts of an interval: their sources grow, they are not empty and lie in
/// their sources, and a byte of a source is in one of them exactly when the
/// interval holds it.
proof fn lemma_parts_of(sources: Seq<Seq<u8>>, k: int, start: int, end: int)
    requires
        0 <= k <= sources.len(),
        0 <= start < end <= logical_len(sources),
    ensures
        forall|i: int|
            0 <= i < parts_of(sources, k, start, end).len() ==> {
                let part = #[trigger] parts_of(sources, k, start, end)[i];
                &&& 0 <= part.0 < k
                &&& (part.1, part.2) == part_in(sources, part.0, start, end)
                &&& 0 <= part.1 < part.2 <= sources[part.0].len()
                &&& part.3 == part.2 - part.1
            },
        forall|i: int, j: int|
            0 <= i < j < parts_of(sources, k, start, end).len() ==> (#[trigger] parts_of(
                sources,
                k,
                start,
                end,
            )[i]).0 < (#[trigger] parts_of(sources, k, start, end)[j]).0,
        forall|s: int|
            0 <= s < k && (#[trigger] part_in(sources, s, start, end)).0 < part_in(
                sources,
                s,
                start,
                end,
            ).1 ==> exists|i: int|
                0 <= i < parts_of(sources, k, start, end).len() && (#[trigger] parts_of(
                    sources,
                    k,
                    start,
                    end,
                )[i]).0 == s,
    decreases k,
{
    if k > 0 {
        lemma_parts_of(sources, k - 1, start, end);
        lemma_starts_ordered(sources, k - 1, k);
        let before = parts_of(sources, k - 1, start, end);
        let all = parts_of(sources, k, start, end);
        let part = part_in(sources, k - 1, start, end);
        assert forall|s: int|
            0 <= s < k && (#[trigger] part_in(sources, s, start, end)).0 < part_in(
                sources,
                s,
                start,
                end,
            ).1 implies exists|i: int| 0 <= i < all.len() && (#[trigger] all[i]).0 == s by {
            if s == k - 1 {
                assert(all[all.len() - 1].0 == s);
            } else {
                let i = choose|i: int| 0 <= i < before.len() && (#[trigger] before[i]).0 == s;
                assert(all[i] == before[i]);
            }
        }
        assert forall|i: int| 0 <= i < all.len() implies {
            let p = #[trigger] all[i];
            &&& 0 <= p.0 < k
            &&& (p.1, p.2) == part_in(sources, p.0, start, end)
            &&& 0 <= p.1 < p.2 <= sources[p.0].len()
            &&& p.3 == p.2 - p.1
        } by {
            if i < before.len() {
                assert(all[i] == before[i]);
            }
        }
        assert forall|i: int, j: int| 0 <= i < j < all.len() implies (#[trigger] all[i]).0 < (
        #[trigger] all[j]).0 by {
            assert(all[i] == before[i]);
            if j < before.len() {
                assert(all[j] == before[j]);
            }
        }
    }
}

/// Law: every worker has at least one range, workers take the dataset in
/// order, and there are at most as many of them as were asked for.
pub proof fn law_workers_share_the_dataset(sources: Seq<Seq<u8>>, n: int, delimiter: u8)
    requires
        0 < n,
    ensures
        tiles(worker_intervals(sources, n, delimiter), 0, logical_len(sources)),
        worker_ranges(sources, n, delimiter).len() <= n,
        forall|w: int|
            0 <= w < worker_ranges(sources, n, delimiter).len() ==> (#[trigger] worker_ranges(
                sources,
                n,
                delimiter,
            )[w]).len() > 0,
        logical_len(sources) == 0 ==> worker_ranges(sources, n, delimiter).len() == 0,
{
    let intervals = worker_intervals(sources, n, delimiter);
    let total = logical_len(sources);
    lemma_starts_ordered(sources, 0, sources.len() as int);
    lemma_logical_cut(sources, delimiter);
    law_partition_covers(
        total,
        n,
        logical_cut(sources, delimiter),
        |end: int| between_records(sources, delimiter, end),
    );
    lemma_tiles_ordered(intervals, 0, total);
    assert forall|w: int| 0 <= w < intervals.len() implies (#[trigger] worker_ranges(
        sources,
        n,
        delimiter,
    )[w]).len() > 0 by {
        lemma_interval_has_parts(sources, intervals[w].0, intervals[w].1);
    }
}

/// A non-empty interval has a part in some source.
proof fn lemma_interval_has_parts(sources: Seq<Seq<u8>>, start: int, end: int)
    requires
        0 <= start < end <= logical_len(sources),
    ensures
        parts_of(sources, sources.len() as int, start, end).len() > 0,
{
    let n = sources.len() as int;
    let k = source_at(sources, n, start);
    lemma_source_at(sources, n, start);
    lemma_parts_of(sources, n, start, end);
    assert(part_in(sources, k, start, end).0 < part_in(sources, k, start, end).1);
}

/// Law: every byte of every source lies in exactly one range of exactly one
/// worker.
pub proof fn law_every_byte_has_one_worker(
    sources: Seq<Seq<u8>>,
    n: int,
    delimiter: u8,
    source: int,
    byte: int,
)
    requires
        0 < n,
        0 <= source < sources.len(),
        0 <= byte < sources[source].len(),
    ensures
        exists|w: int, i: int|
            holds_byte(worker_ranges(sources, n, delimiter), w, i, source, byte) && (forall|
                v: int,
                j: int,
            | #[trigger]
                holds_byte(worker_ranges(sources, n, delimiter), v, j, source, byte) ==> v == w && j
                    == i),
{
    let count = sources.len() as int;
    let total = logical_len(sources);
    let intervals = worker_intervals(sources, n, delimiter);
    let ranges = worker_ranges(sources, n, delimiter);
    let at = start_of(sources, source) + byte;
    law_workers_share_the_dataset(sources, n, delimiter);
    lemma_starts_ordered(sources, source, count);
    lemma_tiles_ordered(intervals, 0, total);
    law_tiling_is_exact_cover(intervals, 0, total, at);
    let w = choose|w: int|
        0 <= w < intervals.len() && (#[trigger] intervals[w]).0 <= at < intervals[w].1 && (forall|
            v: int,
        |
            0 <= v < intervals.len() && (#[trigger] intervals[v]).0 <= at < intervals[v].1 ==> v
                == w);
    let parts = parts_of(sources, count, intervals[w].0, intervals[w].1);
    lemma_parts_of(sources, count, intervals[w].0, intervals[w].1);
    let own = part_in(sources, source, intervals[w].0, intervals[w].1);
    assert(own.0 <= byte < own.1);
    let i = choose|i: int| 0 <= i < parts.len() && (#[trigger] parts[i]).0 == source;
    assert(ranges[w] == parts);
    assert(holds_byte(ranges, w, i, source, byte));
    assert forall|v: int, j: int| #[trigger] holds_byte(ranges, v, j, source, byte) implies v == w
        && j == i by {
        let others = parts_of(sources, count, intervals[v].0, intervals[v].1);
        assert(ranges[v] == others);
        lemma_parts_of(sources, count, intervals[v].0, intervals[v].1);
        assert(others[j].0 == source);
        assert(intervals[v].0 <= at < intervals[v].1);
        if v == w {
            if j < i {
                assert(parts[j].0 < parts[i].0);
            } else if i < j {
                assert(parts[i].0 < parts[j].0);
            }
        }
    }
}

/// Range `i` of worker `w` holds the byte of the source.
pub open spec fn holds_byte(
    ranges: Seq<Seq<(int, int, int, int)>>,
    w: int,
    i: int,
    source: int,
    byte: int,
) -> bool {
    &&& 0 <= w < ranges.len()
    &&& 0 <= i < ranges[w].len()
    &&& ranges[w][i].0 == source
    &&& ranges[w][i].1 <= byte < ranges[w][i].2
}

/// Law: a worker reads the bytes of its own interval and no others.
pub proof fn law_worker_reads_its_interval(
    sources: Seq<Seq<u8>>,
    n: int,
    delimiter: u8,
    w: int,
    source: int,
    byte: int,
)
    requires
        0 < n,
        0 <= w < worker_intervals(sources, n, delimiter).len(),
        0 <= source < sources.len(),
        0 <= byte < sources[source].len(),
    ensures
        (exists|i: int|
            holds_byte(worker_ranges(sources, n, delimiter), w, i, source, byte)) <==> (
        worker_intervals(sources, n, delimiter)[w].0 <= start_of(sources, source) + byte
            < worker_intervals(sources, n, delimiter)[w].1),
{
    let count = sources.len() as int;
    let (start, end) = worker_intervals(sources, n, delimiter)[w];
    let ranges = worker_ranges(sources, n, delimiter);
    let parts = parts_of(sources, count, start, end);
    law_workers_share_the_dataset(sources, n, delimiter);
    lemma_starts_ordered(sources, source, count);
    lemma_tiles_ordered(worker_intervals(sources, n, delimiter), 0, logical_len(sources));
    lemma_parts_of(sources, count, start, end);
    assert(ranges[w] == parts);
    let own = part_in(sources, source, start, end);
    if start <= start_of(sources, source) + byte < end {
        assert(own.0 <= byte < own.1);
        let i = choose|i: int| 0 <= i < parts.len() && (#[trigger] parts[i]).0 == source;
        assert(holds_byte(ranges, w, i, source, byte));
    }
    if exists|i: int| holds_byte(ranges, w, i, source, byte) {
        let i = choose|i: int| holds_byte(ranges, w, i, source, byte);
        assert(parts[i].0 == source);
    }
}

/// Law: no range splits a record. Each starts at the start of its source or
/// after a delimiter, and ends at the end of its source or after a delimiter.
/// A worker's ranges are in source order, none is empty, and each lies in its
/// source.
pub proof fn law_ranges_keep_records_whole(
    sources: Seq<Seq<u8>>,
    n: int,
    delimiter: u8,
    w: int,
    i: int,
)
    requires
        0 < n,
        0 <= w < worker_ranges(sources, n, delimiter).len(),
        0 <= i < worker_ranges(sources, n, delimiter)[w].len(),
    ensures
        ({
            let range = worker_ranges(sources, n, delimiter)[w][i];
            let data = sources[range.0];
            &&& 0 <= range.0 < sources.len()
            &&& 0 <= range.1 < range.2 <= data.len()
            &&& range.3 == range.2 - range.1
            &&& range.1 == 0 || ends_with_delimiter(data, seq![delimiter], range.1)
            &&& range.2 == data.len() || ends_with_delimiter(data, seq![delimiter], range.2)
            &&& i > 0 ==> worker_ranges(sources, n, delimiter)[w][i - 1].0 < range.0
        }),
{
    let count = sources.len() as int;
    let total = logical_len(sources);
    let intervals = worker_intervals(sources, n, delimiter);
    let aligned = |end: int| between_records(sources, delimiter, end);
    let range = worker_ranges(sources, n, delimiter)[w][i];
    let start = intervals[w].0;
    let end = intervals[w].1;
    lemma_starts_ordered(sources, 0, count);
    lemma_logical_cut(sources, delimiter);
    law_partition_covers(total, n, logical_cut(sources, delimiter), aligned);
    lemma_tiles_ordered(intervals, 0, total);
    lemma_parts_of(sources, count, start, end);
    let low = start_of(sources, range.0);
    let high = start_of(sources, range.0 + 1);
    assert(range == parts_of(sources, count, start, end)[i]);
    lemma_starts_ordered(sources, range.0, count);
    if range.1 != 0 {
        assert(start > low);
        assert(intervals[w - 1].1 == start);
        assert(aligned(start));
        lemma_source_at_is(sources, count, range.0, start);
    }
    if range.2 != sources[range.0].len() {
        lemma_starts_ordered(sources, range.0 + 1, count);
        assert(end < high);
        assert(w < intervals.len() - 1);
        assert(aligned(end));
        lemma_source_at_is(sources, count, range.0, end);
    }
    if i > 0 {
        assert(parts_of(sources, count, start, end)[i - 1].0 < parts_of(
            sources,
            count,
            start,
            end,
        )[i].0);
    }
}

/// Law: the first source starts the dataset, and each source starts where the
/// one before it ends.
pub proof fn law_sources_follow_one_another(sources: Seq<Seq<u8>>, k: int)
    requires
        0 <= k < sources.len(),
    ensures
        start_of(sources, 0) == 0,
        start_of(sources, k + 1) == start_of(sources, k) + sources[k].len(),
        k + 1 == sources.len() ==> start_of(sources, k + 1) == logical_len(sources),
{
}

/// A target is cut no later than at the next place between records.
proof fn lemma_cut_is_first(sources: Seq<Seq<u8>>, delimiter: u8, t: int, k: int, a: int)
    requires
        0 < t < logical_len(sources),
        0 <= k <= sources.len(),
        0 <= a,
        t <= start_of(sources, k) + a,
        a > 0 ==> k < sources.len() && a < sources[k].len(),
    ensures
        a == 0 ==> logical_cut(sources, delimiter)(t) <= start_of(sources, k),
        k < sources.len() && a < sources[k].len() && sources[k][a] == delimiter ==> logical_cut(
            sources,
            delimiter,
        )(t) <= start_of(sources, k) + a + 1,
{
    let count = sources.len() as int;
    let at = source_at(sources, count, t);
    let low = start_of(sources, at);
    lemma_source_at(sources, count, t);
    if low != t {
        lemma_record_end(sources[at], seq![delimiter], t - low);
        if k <= at {
            lemma_starts_ordered(sources, k, at);
            if k == at {
                lemma_first_from_is_first(sources[at], seq![delimiter], t - low);
                if sources[k][a] == delimiter {
                    assert(sources[k].subrange(a, a + 1) =~= seq![delimiter]);
                    assert(occurs_at(sources[k], seq![delimiter], a));
                }
            }
        } else {
            lemma_starts_ordered(sources, at + 1, k);
        }
    }
}

/// Law: of `n` workers, none runs past its share further than to the next place
/// between records. Where target `j`, which is `j` shares of `n` rounded down,
/// lies past the start of a worker's interval, the interval holds no start of a
/// source at the target or later, and no delimiter at the target or later but as
/// its last byte.
pub proof fn law_workers_stop_at_first_record(
    sources: Seq<Seq<u8>>,
    n: int,
    delimiter: u8,
    w: int,
    j: int,
    k: int,
    a: int,
)
    requires
        0 < j < n,
        0 <= w < worker_intervals(sources, n, delimiter).len(),
        0 <= k < sources.len(),
        0 <= a < sources[k].len(),
        worker_intervals(sources, n, delimiter)[w].0 < (logical_len(sources) * j) / n,
    ensures
        (logical_len(sources) * j) / n <= start_of(sources, k) ==> worker_intervals(
            sources,
            n,
            delimiter,
        )[w].1 <= start_of(sources, k),
        (logical_len(sources) * j) / n <= start_of(sources, k) + a && sources[k][a] == delimiter
            ==> worker_intervals(sources, n, delimiter)[w].1 <= start_of(sources, k) + a + 1,
{
    let total = logical_len(sources);
    let cut = logical_cut(sources, delimiter);
    lemma_starts_ordered(sources, 0, sources.len() as int);
    lemma_logical_cut(sources, delimiter);
    let first = lemma_step(total, n, 1, 0, cut, w);
    let t = ideal_target(total, n, first);
    assert(ideal_target(total, n, j) == (total * j) / n);
    assert(first <= j);
    lemma_targets_ordered(total, n, first, j);
    if t <= start_of(sources, k) {
        lemma_cut_is_first(sources, delimiter, t, k, 0);
    }
    if t <= start_of(sources, k) + a {
        lemma_cut_is_first(sources, delimiter, t, k, a);
    }
}

/// Law: a worker's interval that ends short of the end of the dataset ends at the
/// start of a source, or after a delimiter, at one of its targets or later: at
/// `j` shares of `n`, rounded down, for a number `j` for which this lies past the
/// start of the interval. The place is given as a source and an offset in it.
pub proof fn law_workers_reach_a_target(
    sources: Seq<Seq<u8>>,
    n: int,
    delimiter: u8,
    w: int,
) -> (r: (int, int, int))
    requires
        0 < n,
        0 <= w < worker_intervals(sources, n, delimiter).len(),
        worker_intervals(sources, n, delimiter)[w].1 < logical_len(sources),
    ensures
        ({
            let (j, k, a) = r;
            let interval = worker_intervals(sources, n, delimiter)[w];
            &&& 0 < j < n
            &&& interval.0 < (logical_len(sources) * j) / n <= interval.1
            &&& 0 <= k < sources.len()
            &&& 0 <= a <= sources[k].len()
            &&& interval.1 == start_of(sources, k) + a
            &&& a == 0 || a == sources[k].len() || sources[k][a - 1] == delimiter
                && (logical_len(sources) * j) / n < interval.1
        }),
{
    let count = sources.len() as int;
    let total = logical_len(sources);
    let cut = logical_cut(sources, delimiter);
    lemma_starts_ordered(sources, 0, count);
    lemma_logical_cut(sources, delimiter);
    let j = lemma_step(total, n, 1, 0, cut, w);
    let t = ideal_target(total, n, j);
    assert(t == (total * j) / n);
    let k = source_at(sources, count, t);
    let low = start_of(sources, k);
    lemma_source_at(sources, count, t);
    if low == t {
        (j, k, 0)
    } else {
        let end = record_end(sources[k], seq![delimiter], t - low);
        lemma_record_end(sources[k], seq![delimiter], t - low);
        lemma_first_from_is_first(sources[k], seq![delimiter], t - low);
        if let Some(at) = first_from(sources[k], seq![delimiter], t - low) {
            assert(occurs_at(sources[k], seq![delimiter], at));
            assert(sources[k].subrange(at, at + 1)[0] == sources[k][at]);
        }
        (j, k, end)
    }
}

/// Law: a dataset of one source is partitioned as that source alone.
pub proof fn law_single_source_agrees(data: Seq<u8>, n: int, delimiter: u8)
    requires
        0 < n,
    ensures
        worker_intervals(seq![data], n, delimiter) == partition(
            data.len() as int,
            n,
            cut_at_record(data, seq![delimiter]),
        ),
        worker_ranges(seq![data], n, delimiter) == worker_intervals(
            seq![data],
            n,
            delimiter,
        ).map_values(|r: (int, int)| seq![(0int, r.0, r.1, r.1 - r.0)]),
{
    let sources = seq![data];
    let total = data.len() as int;
    reveal_with_fuel(start_of, 2);
    reveal_with_fuel(parts_of, 2);
    assert(logical_len(sources) == total);
    let a = logical_cut(sources, delimiter);
    let b = cut_at_record(data, seq![delimiter]);
    assert forall|t: int| 0 < t < total implies #[trigger] a(t) == b(t) by {
        lemma_source_at_is(sources, 1, 0, t);
    }
    lemma_logical_cut(sources, delimiter);
    if total > 0 {
        lemma_same_cut_points(total, n, 1, 0, a, b);
    }
    law_workers_share_the_dataset(sources, n, delimiter);
    let intervals = worker_intervals(sources, n, delimiter);
    lemma_tiles_ordered(intervals, 0, total);
    let expected = intervals.map_values(|r: (int, int)| seq![(0int, r.0, r.1, r.1 - r.0)]);
    assert forall|w: int| 0 <= w < intervals.len() implies #[trigger] worker_ranges(
        sources,
        n,
        delimiter,
    )[w] == expected[w] by {
        let r = intervals[w];
        assert(0 <= r.0 < r.1 <= total);
        assert(part_in(sources, 0, r.0, r.1) == r);
        assert(parts_of(sources, 0, r.0, r.1) =~= Seq::empty());
        assert(parts_of(sources, 1, r.0, r.1) =~= seq![(0int, r.0, r.1, r.1 - r.0)]);
    }
    assert(worker_ranges(sources, n, delimiter) =~= expected);
}

/// Cuts that agree inside the data give the same cut points.
proof fn lemma_same_cut_points(
    len: int,
    n: int,
    i: int,
    last: int,
    a: spec_fn(int) -> int,
    b: spec_fn(int) -> int,
)
    requires
        0 < len,
        1 <= i <= n,
        0 <= last,
        cuts_forward(len, a),
        forall|t: int| 0 < t < len ==> #[trigger] a(t) == b(t),
    ensures
        cut_points(len, n, i, last, a) == cut_points(len, n, i, last, b),
    decreases n - i,
{
    if i < n {
        lemma_ideal_target(len, n, i);
        let t = ideal_target(len, n, i);
        if t <= last {
            lemma_same_cut_points(len, n, i + 1, last, a, b);
        } else {
            assert(a(t) == b(t));
            lemma_same_cut_points(len, n, i + 1, a(t), a, b);
        }
    }
}

/// One range of a source that a worker reads.
#[derive(Clone, Copy, Debug, PartialEq, Eq, Structural)]
pub struct SourceRange {
    /// Position of the source in the dataset.
    pub source_index: usize,
    /// First byte.
    pub start: usize,
    /// First byte after the range.
    pub end_exclusive: usize,
    /// Number of bytes.
    pub length: usize,
}

impl SourceRange {
    /// Source, start, end and length.
    pub open spec fn numbers(self) -> (int, int, int, int) {
        (
            self.source_index as int,
            self.start as int,
            self.end_exclusive as int,
            self.length as int,
        )
    }
}

/// Source, start, end and length of each range.
pub open spec fn range_numbers(ranges: Seq<SourceRange>) -> Seq<(int, int, int, int)> {
    ranges.map_values(|r: SourceRange| r.numbers())
}

/// The ranges of one worker.
#[derive(Debug)]
pub struct WorkerAssignment {
    /// Position of the worker.
    pub worker_index: usize,
    /// What it reads, in source order.
    pub ranges: Vec<SourceRange>,
}

/// The assignments number their workers from zero and hand worker `w` the
/// ranges at `w`.
pub open spec fn assigns(
    assignments: Seq<WorkerAssignment>,
    ranges: Seq<Seq<(int, int, int, int)>>,
) -> bool {
    &&& assignments.len() == ranges.len()
    &&& forall|w: int|
        0 <= w < assignments.len() ==> (#[trigger] assignments[w]).worker_index == w
            && range_numbers(assignments[w].ranges@) == ranges[w]
}

/// What is known of the record ends of one source after some searches in it.
#[derive(Clone, Copy, Debug, PartialEq, Eq, Structural)]
pub struct BoundarySearchState {
    scan_from: usize,
    cached_boundary: Option<usize>,
}

impl BoundarySearchState {
    /// From `target` on, the state answers for this source.
    pub closed spec fn answers(self, data: Seq<u8>, delimiter: u8, target: int) -> bool {
        match self.cached_boundary {
            Some(boundary) => {
                &&& self.scan_from == boundary
                &&& boundary <= data.len()
                &&& forall|t: int|
                    0 <= t && target <= t < boundary ==> #[trigger] record_end(
                        data,
                        seq![delimiter],
                        t,
                    ) == boundary
            },
            None => self.scan_from == 0,
        }
    }

    /// A state before any search.
    pub fn new() -> (state: Self)
        ensures
            forall|data: Seq<u8>, delimiter: u8, target: int|
                state.answers(data, delimiter, target),
    {
        BoundarySearchState { scan_from: 0, cached_boundary: None }
    }
}

/// From any place inside a record on, the same end is found.
proof fn lemma_record_end_stays(data: Seq<u8>, delimiter: u8, from: int, target: int)
    requires
        0 <= from <= target < record_end(data, seq![delimiter], from),
    ensures
        record_end(data, seq![delimiter], target) == record_end(data, seq![delimiter], from),
    decreases target - from,
{
    if from < target {
        if occurs_at(data, seq![delimiter], from) {
            assert(first_from(data, seq![delimiter], from) == Some(from));
        } else {
            lemma_record_end_stays(data, delimiter, from + 1, target);
        }
    }
}

/// The end of the record found from `target` on. Searches with growing targets
/// look at every byte of the source at most once.
pub fn next_record_boundary(
    data: &[u8],
    target: usize,
    delimiter: u8,
    state: &mut BoundarySearchState,
) -> (boundary: usize)
    requires
        target <= data@.len(),
        old(state).answers(data@, delimiter, target as int),
    ensures
        boundary == record_end(data@, seq![delimiter], target as int),
        final(state).answers(data@, delimiter, target as int),
{
    if let Some(cached) = state.cached_boundary {
        if target < cached {
            return cached;
        }
    }
    let scan_from: usize = if target > state.scan_from {
        target
    } else {
        state.scan_from
    };
    assert(scan_from == target);
    let pattern: [u8; 1] = [delimiter];
    let len: usize = data.len();
    proof {
        assert(pattern@ =~= seq![delimiter]);
    }
    let boundary: usize = match find_pattern_after(data, pattern.as_slice(), scan_from) {
        Some(at) => at + 1,
        None => len,
    };
    proof {
        lemma_record_end(data@, seq![delimiter], target as int);
        assert forall|t: int| 0 <= t && target <= t < boundary implies #[trigger] record_end(
            data@,
            seq![delimiter],
            t,
        ) == boundary by {
            lemma_record_end_stays(data@, delimiter, target as int, t);
        }
    }
    state.scan_from = boundary;
    state.cached_boundary = Some(boundary);
    boundary
}

/// The bytes of each source.
pub open spec fn source_bytes(sources: Seq<MmapChunker>) -> Seq<Seq<u8>> {
    sources.map_values(|source: MmapChunker| source.bytes())
}

/// The numbers are the logical offsets at which the sources start, and that of
/// the end.
pub open spec fn are_starts(prefixes: Seq<u128>, sources: Seq<Seq<u8>>) -> bool {
    &&& prefixes.len() == sources.len() + 1
    &&& forall|k: int| 0 <= k < prefixes.len() ==> #[trigger] prefixes[k] == start_of(sources, k)
}

/// The logical offsets at which the sources start, and that of the end.
fn logical_starts(sources: &[MmapChunker]) -> (prefixes: Vec<u128>)
    ensures
        are_starts(prefixes@, source_bytes(sources@)),
{
    let ghost bytes = source_bytes(sources@);
    let mut prefixes: Vec<u128> = Vec::new();
    prefixes.push(0);
    let mut sum: u128 = 0;
    let count: usize = sources.len();
    let mut k: usize = 0;
    while k < count
        invariant
            bytes == source_bytes(sources@),
            k <= count == sources@.len(),
            prefixes@.len() == k + 1,
            sum == start_of(bytes, k as int),
            sum <= k * usize::MAX,
            forall|j: int| 0 <= j < prefixes@.len() ==> #[trigger] prefixes@[j] == start_of(bytes, j),
        decreases count - k,
    {
        let len: usize = sources[k].len();
        proof {
            assert(bytes[k as int] == sources@[k as int].bytes());
            assert((k + 1) * usize::MAX <= usize::MAX * usize::MAX) by (nonlinear_arith)
                requires
                    k + 1 <= usize::MAX,
            ;
            assert(usize::MAX * usize::MAX <= u128::MAX) by (nonlinear_arith)
                requires
                    usize::MAX <= 0xffff_ffff_ffff_ffff,
            ;
            assert((k + 1) * usize::MAX == k * usize::MAX + usize::MAX) by (nonlinear_arith);
        }
        sum = sum + len as u128;
        prefixes.push(sum);
        k = k + 1;
    }
    prefixes
}

/// How many of the ascending numbers are at most `target`.
fn count_up_to(prefixes: &Vec<u128>, target: u128) -> (r: usize)
    requires
        forall|i: int, j: int| 0 <= i <= j < prefixes@.len() ==> prefixes@[i] <= prefixes@[j],
    ensures
        r <= prefixes@.len(),
        forall|i: int| 0 <= i < r ==> prefixes@[i] <= target,
        forall|i: int| r <= i < prefixes@.len() ==> prefixes@[i] > target,
{
    let mut low: usize = 0;
    let mut high: usize = prefixes.len();
    while low < high
        invariant
            low <= high <= prefixes@.len(),
            forall|i: int, j: int| 0 <= i <= j < prefixes@.len() ==> prefixes@[i] <= prefixes@[j],
            forall|i: int| 0 <= i < low ==> prefixes@[i] <= target,
            forall|i: int| high <= i < prefixes@.len() ==> prefixes@[i] > target,
        decreases high - low,
    {
        let middle: usize = low + (high - low) / 2;
        if prefixes[middle] <= target {
            low = middle + 1;
        } else {
            high = middle;
        }
    }
    low
}

/// Each state answers for its source from the logical offset `target` on.
spec fn states_answer(
    states: Seq<BoundarySearchState>,
    sources: Seq<Seq<u8>>,
    delimiter: u8,
    target: int,
) -> bool {
    &&& states.len() == sources.len()
    &&& forall|k: int|
        0 <= k < states.len() ==> (#[trigger] states[k]).answers(
            sources[k],
            delimiter,
            target - start_of(sources, k),
        )
}

/// Cut one logical target.
fn project_logical_target(
    target: u128,
    prefixes: &Vec<u128>,
    sources: &[MmapChunker],
    delimiter: u8,
    states: &mut Vec<BoundarySearchState>,
) -> (projected: u128)
    requires
        are_starts(prefixes@, source_bytes(sources@)),
        0 < target < logical_len(source_bytes(sources@)),
        states_answer(old(states)@, source_bytes(sources@), delimiter, target as int),
    ensures
        projected == logical_cut(source_bytes(sources@), delimiter)(target as int),
        states_answer(final(states)@, source_bytes(sources@), delimiter, target as int),
{
    let ghost bytes = source_bytes(sources@);
    proof {
        assert forall|i: int, j: int| 0 <= i <= j < prefixes@.len() implies prefixes@[i]
            <= prefixes@[j] by {
            lemma_starts_ordered(bytes, i, j);
        }
        assert(prefixes@[0] == 0);
        assert(prefixes@[prefixes@.len() - 1] == logical_len(bytes));
    }
    let upper: usize = count_up_to(prefixes, target);
    let k: usize = upper - 1;
    let source_start: u128 = prefixes[k];
    proof {
        assert(prefixes@[upper as int] > target);
        assert(start_of(bytes, k + 1) == prefixes@[upper as int]);
        lemma_source_at_is(bytes, bytes.len() as int, k as int, target as int);
        lemma_logical_cut(bytes, delimiter);
        assert(target <= logical_cut(bytes, delimiter)(target as int) <= logical_len(bytes));
    }
    if source_start == target {
        return target;
    }
    let data = sources[k].as_bytes();
    let len: usize = data.len();
    assert(data@ == bytes[k as int]);
    assert(target - source_start < len);
    let local_target: usize = (target - source_start) as usize;
    let mut state: BoundarySearchState = states[k];
    let local_boundary: usize = next_record_boundary(data, local_target, delimiter, &mut state);
    states.set(k, state);
    source_start + local_boundary as u128
}

/// Split a logical interval into ranges of the sources.
fn ranges_for_interval(
    start: u128,
    end: u128,
    prefixes: &Vec<u128>,
    sources: &[MmapChunker],
) -> (ranges: Vec<SourceRange>)
    requires
        are_starts(prefixes@, source_bytes(sources@)),
        end <= logical_len(source_bytes(sources@)),
    ensures
        range_numbers(ranges@) == parts_of(
            source_bytes(sources@),
            sources@.len() as int,
            start as int,
            end as int,
        ),
{
    let ghost bytes = source_bytes(sources@);
    let mut ranges: Vec<SourceRange> = Vec::new();
    let count: usize = sources.len();
    let mut k: usize = 0;
    proof {
        assert(range_numbers(ranges@) =~= Seq::empty());
    }
    while k < count
        invariant
            bytes == source_bytes(sources@),
            k <= count == sources@.len(),
            are_starts(prefixes@, bytes),
            range_numbers(ranges@) == parts_of(bytes, k as int, start as int, end as int),
        decreases count - k,
    {
        let source_start: u128 = prefixes[k];
        let source_end: u128 = prefixes[k + 1];
        let source_len: usize = sources[k].len();
        proof {
            assert(bytes[k as int] == sources@[k as int].bytes());
            assert(source_end == start_of(bytes, k + 1));
            assert(source_end - source_start == source_len);
        }
        let range_start: u128 = if start > source_start {
            start
        } else {
            source_start
        };
        let range_end: u128 = if end < source_end {
            end
        } else {
            source_end
        };
        let ghost before = ranges@;
        if range_start < range_end {
            let local_start: usize = (range_start - source_start) as usize;
            let local_end: usize = (range_end - source_start) as usize;
            ranges.push(
                SourceRange {
                    source_index: k,
                    start: local_start,
                    end_exclusive: local_end,
                    length: local_end - local_start,
                },
            );
            proof {
                assert(range_numbers(ranges@) =~= range_numbers(before).push(
                    ranges@.last().numbers(),
                ));
            }
        }
        k = k + 1;
    }
    ranges
}

/// A last cut at the end adds no range.
proof fn lemma_cut_at_end(len: int, start: int, cuts: Seq<int>)
    requires
        start <= len,
        forall|i: int| 0 <= i < cuts.len() ==> #[trigger] cuts[i] <= len,
    ensures
        ranges_between(len, start, cuts.push(len)) == ranges_between(len, start, cuts),
    decreases cuts.len(),
{
    let longer = cuts.push(len);
    if cuts.len() == 0 {
        assert(longer.drop_first() =~= Seq::empty());
        assert(ranges_between(len, len, Seq::empty()) =~= Seq::empty());
        if start < len {
            assert(seq![(start, len)] + Seq::<(int, int)>::empty() =~= seq![(start, len)]);
        }
    } else {
        assert(longer.drop_first() =~= cuts.drop_first().push(len));
        lemma_cut_at_end(len, cuts[0], cuts.drop_first());
    }
}

/// Executable cut points as mathematical integers.
spec fn wide_offsets(cuts: Seq<u128>) -> Seq<int> {
    cuts.map_values(|c: u128| c as int)
}

/// Cut points of the dataset for `n` workers, short of its end.
fn logical_cuts(
    prefixes: &Vec<u128>,
    sources: &[MmapChunker],
    total: u128,
    n: usize,
    delimiter: u8,
) -> (r: Option<Vec<u128>>)
    requires
        are_starts(prefixes@, source_bytes(sources@)),
        total == logical_len(source_bytes(sources@)),
        0 < total,
        0 < n,
    ensures
        ({
            let bytes = source_bytes(sources@);
            let cut = logical_cut(bytes, delimiter);
            match r {
                Some(cuts) => {
                    &&& !targets_overflow(total as int, n as int, 1, 0, cut)
                    &&& ranges_between(total as int, 0, wide_offsets(cuts@)) == partition(
                        total as int,
                        n as int,
                        cut,
                    )
                    &&& forall|i: int| 0 <= i < cuts@.len() ==> #[trigger] cuts@[i] <= total
                },
                None => targets_overflow(total as int, n as int, 1, 0, cut),
            }
        }),
{
    let ghost bytes = source_bytes(sources@);
    let ghost cut = logical_cut(bytes, delimiter);
    let ghost all = cut_points(total as int, n as int, 1, 0, cut);
    let mut states: Vec<BoundarySearchState> = Vec::new();
    let count: usize = sources.len();
    let mut k: usize = 0;
    while k < count
        invariant
            k <= count == sources@.len(),
            bytes == source_bytes(sources@),
            states@.len() == k,
            forall|j: int|
                0 <= j < k ==> (#[trigger] states@[j]).answers(
                    bytes[j],
                    delimiter,
                    0 - start_of(bytes, j),
                ),
        decreases count - k,
    {
        states.push(BoundarySearchState::new());
        k = k + 1;
    }
    let mut cuts: Vec<u128> = Vec::new();
    let mut last: u128 = 0;
    let mut i: usize = 1;
    let ghost mut seen: int = 0;
    proof {
        lemma_logical_cut(bytes, delimiter);
        assert(wide_offsets(cuts@) =~= Seq::empty());
        assert(wide_offsets(cuts@) + all =~= all);
        lemma_ideal_target(total as int, n as int, 1);
        lemma_ideal_target(total as int, n as int, 0);
    }
    while i < n
        invariant
            are_starts(prefixes@, bytes),
            bytes == source_bytes(sources@),
            cut == logical_cut(bytes, delimiter),
            cuts_forward(total as int, cut),
            total == logical_len(bytes),
            all == cut_points(total as int, n as int, 1, 0, cut),
            0 < total,
            1 <= i <= n,
            last <= total,
            0 <= seen <= ideal_target(total as int, n as int, i as int),
            states_answer(states@, bytes, delimiter, seen),
            all == wide_offsets(cuts@) + cut_points(total as int, n as int, i as int, last as int, cut),
            targets_overflow(total as int, n as int, 1, 0, cut) == targets_overflow(
                total as int,
                n as int,
                i as int,
                last as int,
                cut,
            ),
            forall|j: int| 0 <= j < cuts@.len() ==> #[trigger] cuts@[j] <= total,
        decreases n - i,
    {
        proof {
            lemma_ideal_target(total as int, n as int, i as int);
        }
        let product: u128 = match total.checked_mul(i as u128) {
            Some(product) => product,
            None => {
                return None;
            },
        };
        let target: u128 = product / (n as u128);
        if target > last {
            proof {
                seen = target as int;
            }
            let projected: u128 = project_logical_target(
                target,
                prefixes,
                sources,
                delimiter,
                &mut states,
            );
            if projected == total {
                proof {
                    let rest = cut_points(total as int, n as int, i as int, last as int, cut);
                    lemma_no_points_past_end(total as int, n as int, i + 1, cut);
                    assert(rest =~= seq![total as int]);
                    assert(all =~= wide_offsets(cuts@).push(total as int));
                    lemma_cut_at_end(total as int, 0, wide_offsets(cuts@));
                }
                return Some(cuts);
            }
            proof {
                assert(wide_offsets(cuts@.push(projected)) =~= wide_offsets(cuts@).push(
                    projected as int,
                ));
                assert(all =~= wide_offsets(cuts@.push(projected)) + cut_points(
                    total as int,
                    n as int,
                    i + 1,
                    projected as int,
                    cut,
                ));
            }
            cuts.push(projected);
            last = projected;
        }
        i = i + 1;
    }
    proof {
        assert(all =~= wide_offsets(cuts@));
    }
    Some(cuts)
}

/// Whether planning fails: a target of the dataset leaves the range of `u128`.
pub open spec fn planning_overflows(sources: Seq<Seq<u8>>, n: int, delimiter: u8) -> bool {
    let total = logical_len(sources);
    0 < n && 0 < total && targets_overflow(
        total,
        if n < total {
            n
        } else {
            total
        },
        1,
        0,
        logical_cut(sources, delimiter),
    )
}

/// Law: planning can fail only where bytes times workers leave the range of
/// `u128`.
pub proof fn law_planning_succeeds(sources: Seq<Seq<u8>>, n: int, delimiter: u8)
    requires
        logical_len(sources) * n <= u128::MAX,
    ensures
        !planning_overflows(sources, n, delimiter),
{
    let total = logical_len(sources);
    let workers = if n < total {
        n
    } else {
        total
    };
    if 0 < n && 0 < total {
        assert(total * workers <= total * n) by (nonlinear_arith)
            requires
                workers <= n,
                0 < total,
        ;
        lemma_no_overflow(total, workers, 1, 0, logical_cut(sources, delimiter));
    }
}

/// Targets stay in range where the last of them does.
proof fn lemma_no_overflow(len: int, n: int, i: int, last: int, cut: spec_fn(int) -> int)
    requires
        0 < len,
        len * n <= u128::MAX,
        i <= n,
    ensures
        !targets_overflow(len, n, i, last, cut),
    decreases n - i,
{
    if i < n {
        assert(len * i <= len * n) by (nonlinear_arith)
            requires
                i <= n,
                0 < len,
        ;
        lemma_no_overflow(len, n, i + 1, last, cut);
        lemma_no_overflow(len, n, i + 1, cut(ideal_target(len, n, i)), cut);
    }
}

/// Hand the parts of one logical interval to the next worker.
fn assign_interval(
    assignments: &mut Vec<WorkerAssignment>,
    start: u128,
    end: u128,
    prefixes: &Vec<u128>,
    sources: &[MmapChunker],
    Ghost(done): Ghost<Seq<(int, int)>>,
)
    requires
        are_starts(prefixes@, source_bytes(sources@)),
        start < end <= logical_len(source_bytes(sources@)),
        assigns(old(assignments)@, interval_parts(source_bytes(sources@), done)),
    ensures
        assigns(
            final(assignments)@,
            interval_parts(source_bytes(sources@), done.push((start as int, end as int))),
        ),
{
    let ghost bytes = source_bytes(sources@);
    let ghost before = assignments@;
    let ranges = ranges_for_interval(start, end, prefixes, sources);
    proof {
        lemma_interval_has_parts(bytes, start as int, end as int);
    }
    let worker_index: usize = assignments.len();
    assignments.push(WorkerAssignment { worker_index, ranges });
    proof {
        let parts = interval_parts(bytes, done.push((start as int, end as int)));
        assert forall|w: int| 0 <= w < assignments@.len() implies (
        #[trigger] assignments@[w]).worker_index == w && range_numbers(assignments@[w].ranges@)
            == parts[w] by {
            if w < before.len() {
                assert(assignments@[w] == before[w]);
                assert(parts[w] == interval_parts(bytes, done)[w]);
            }
        }
    }
}

/// Plan at most `requested_parts` workers over the sources in order, cutting
/// only between records. A source boundary is a record boundary.
pub fn plan_logical_partitions(
    sources: &[MmapChunker],
    requested_parts: usize,
    delimiter: u8,
) -> (r: Result<Vec<WorkerAssignment>, String>)
    ensures
        match r {
            Ok(assignments) => {
                &&& !planning_overflows(
                    source_bytes(sources@),
                    requested_parts as int,
                    delimiter,
                )
                &&& assigns(
                    assignments@,
                    worker_ranges(source_bytes(sources@), requested_parts as int, delimiter),
                )
            },
            Err(message) => {
                &&& planning_overflows(
                    source_bytes(sources@),
                    requested_parts as int,
                    delimiter,
                )
                &&& message@ == TARGET_OVERFLOW@
            },
        },
{
    let ghost bytes = source_bytes(sources@);
    let ghost cut = logical_cut(bytes, delimiter);
    let mut assignments: Vec<WorkerAssignment> = Vec::new();
    if requested_parts == 0 {
        return Ok(assignments);
    }
    let prefixes = logical_starts(sources);
    let total: u128 = prefixes[prefixes.len() - 1];
    if total == 0 {
        return Ok(assignments);
    }
    let n: usize = if (requested_parts as u128) < total {
        requested_parts
    } else {
        total as usize
    };
    proof {
        lemma_logical_cut(bytes, delimiter);
        if requested_parts >= total {
            law_partition_caps_at_len(total as int, requested_parts as int, cut);
        }
    }
    let cuts = match logical_cuts(&prefixes, sources, total, n, delimiter) {
        Some(cuts) => cuts,
        None => {
            return Err(TARGET_OVERFLOW.to_string());
        },
    };
    let ghost offsets = wide_offsets(cuts@);
    let ghost intervals = worker_intervals(bytes, requested_parts as int, delimiter);
    let ghost mut done: Seq<(int, int)> = Seq::empty();
    let mut start: u128 = 0;
    let mut j: usize = 0;
    proof {
        assert(offsets.skip(0) =~= offsets);
        assert(done + intervals =~= intervals);
        assert(interval_parts(bytes, done) =~= Seq::empty());
    }
    while j < cuts.len()
        invariant
            are_starts(prefixes@, bytes),
            bytes == source_bytes(sources@),
            total == logical_len(bytes),
            offsets == wide_offsets(cuts@),
            j <= cuts@.len(),
            start <= total,
            forall|i: int| 0 <= i < cuts@.len() ==> #[trigger] cuts@[i] <= total,
            intervals == done + ranges_between(total as int, start as int, offsets.skip(j as int)),
            assigns(assignments@, interval_parts(bytes, done)),
        decreases cuts@.len() - j,
    {
        let end: u128 = cuts[j];
        proof {
            assert(offsets.skip(j as int).drop_first() =~= offsets.skip(j + 1));
            assert(offsets.skip(j as int)[0] == end);
        }
        if start < end {
            assign_interval(&mut assignments, start, end, &prefixes, sources, Ghost(done));
            proof {
                let more = done.push((start as int, end as int));
                assert(intervals =~= more + ranges_between(
                    total as int,
                    end as int,
                    offsets.skip(j + 1),
                ));
                done = more;
            }
        }
        start = end;
        j = j + 1;
    }
    if start < total {
        assign_interval(&mut assignments, start, total, &prefixes, sources, Ghost(done));
        proof {
            done = done.push((start as int, total as int));
        }
    }
    proof {
        assert(intervals =~= done);
    }
    Ok(assignments)
}

} // verus!
