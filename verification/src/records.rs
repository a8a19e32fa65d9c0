//! Records that end in a delimiter, and what partitions do to them.

use crate::ranges::{
    inner_ends, law_tiling_is_exact_cover, lemma_tiles_cons, lemma_tiles_ordered, partition, tiles,
};
use crate::scanner::{
    chunk_ranges, cut_at_record, ends_with_delimiter, law_chunks_cover, law_slice_partition_covers,
    lemma_record_end, record_end,
};
use crate::search::{lemma_first_from_is_first, occurs_apart, occurs_at};
use vstd::prelude::*;

verus! {

/// The records of `data` from `start` on: each ends after a delimiter, and the
/// last one may end with the data.
pub open spec fn record_ranges(data: Seq<u8>, delimiter: Seq<u8>, start: int) -> Seq<(int, int)>
    decreases data.len() - start,
        when 0 <= start && delimiter.len() > 0
{
    if start >= data.len() {
        Seq::empty()
    } else {
        proof {
            lemma_record_end(data, delimiter, start);
        }
        seq![(start, record_end(data, delimiter, start))] + record_ranges(
            data,
            delimiter,
            record_end(data, delimiter, start),
        )
    }
}

/// Records cover the data in order, each ends where its first delimiter does,
/// and each but the first starts after a delimiter.
proof fn lemma_records(data: Seq<u8>, delimiter: Seq<u8>, start: int)
    requires
        0 <= start <= data.len(),
        delimiter.len() > 0,
    ensures
        tiles(record_ranges(data, delimiter, start), start, data.len() as int),
        forall|k: int|
            0 <= k < record_ranges(data, delimiter, start).len() ==> {
                let record = #[trigger] record_ranges(data, delimiter, start)[k];
                &&& record.1 == record_end(data, delimiter, record.0)
                &&& record.0 == start || ends_with_delimiter(data, delimiter, record.0)
            },
    decreases data.len() - start,
{
    if start < data.len() {
        lemma_record_end(data, delimiter, start);
        let end = record_end(data, delimiter, start);
        lemma_records(data, delimiter, end);
        let rest = record_ranges(data, delimiter, end);
        lemma_tiles_cons(start, end, rest, data.len() as int);
        let all = record_ranges(data, delimiter, start);
        assert forall|k: int| 0 <= k < all.len() implies {
            let record = #[trigger] all[k];
            &&& record.1 == record_end(data, delimiter, record.0)
            &&& record.0 == start || ends_with_delimiter(data, delimiter, record.0)
        } by {
            if k > 0 {
                assert(all[k] == rest[k - 1]);
            }
        }
    }
}

/// The range of a tiling that holds a byte.
proof fn lemma_holder(ranges: Seq<(int, int)>, from: int, to: int, byte: int) -> (i: int)
    requires
        tiles(ranges, from, to),
        from <= byte < to,
    ensures
        0 <= i < ranges.len(),
        ranges[i].0 <= byte < ranges[i].1,
{
    law_tiling_is_exact_cover(ranges, from, to, byte);
    choose|i: int| 0 <= i < ranges.len() && (#[trigger] ranges[i]).0 <= byte < ranges[i].1
}

/// Only one range of a tiling holds a byte.
proof fn lemma_holders_agree(ranges: Seq<(int, int)>, from: int, to: int, byte: int, i: int, j: int)
    requires
        tiles(ranges, from, to),
        from <= byte < to,
        0 <= i < ranges.len(),
        0 <= j < ranges.len(),
        ranges[i].0 <= byte < ranges[i].1,
        ranges[j].0 <= byte < ranges[j].1,
    ensures
        i == j,
{
    law_tiling_is_exact_cover(ranges, from, to, byte);
}

/// The second range lies inside the first.
pub open spec fn holds_range(outer: (int, int), inner: (int, int)) -> bool {
    outer.0 <= inner.0 && inner.1 <= outer.1
}

/// Where occurrences of the delimiter do not overlap, ranges that end at a
/// delimiter hold every record whole.
proof fn lemma_aligned_ranges_hold_records(
    data: Seq<u8>,
    delimiter: Seq<u8>,
    ranges: Seq<(int, int)>,
    k: int,
)
    requires
        delimiter.len() > 0,
        occurs_apart(data, delimiter),
        tiles(ranges, 0, data.len() as int),
        inner_ends(ranges, |end: int| ends_with_delimiter(data, delimiter, end)),
        0 <= k < record_ranges(data, delimiter, 0).len(),
    ensures
        exists|i: int|
            0 <= i < ranges.len() && holds_range(
                #[trigger] ranges[i],
                record_ranges(data, delimiter, 0)[k],
            ),
{
    let len = data.len() as int;
    let records = record_ranges(data, delimiter, 0);
    lemma_records(data, delimiter, 0);
    lemma_tiles_ordered(records, 0, len);
    lemma_tiles_ordered(ranges, 0, len);
    let (start, end) = records[k];
    let i = lemma_holder(ranges, 0, len, start);
    let cut = ranges[i].1;
    if cut < end {
        assert(i < ranges.len() - 1);
        assert(ends_with_delimiter(data, delimiter, cut));
        let at = cut - delimiter.len();
        assert(occurs_at(data, delimiter, at));
        lemma_first_from_is_first(data, delimiter, start);
        if at < start {
            assert(occurs_at(data, delimiter, start - delimiter.len()));
        }
        assert(false);
    }
    assert(holds_range(ranges[i], records[k]));
}

/// Law: partitions split no record. Where occurrences of the delimiter do not
/// overlap, every record lies inside one partition.
pub proof fn law_partitions_split_no_record(data: Seq<u8>, delimiter: Seq<u8>, n: int, k: int)
    requires
        0 < n,
        delimiter.len() > 0,
        occurs_apart(data, delimiter),
        0 <= k < record_ranges(data, delimiter, 0).len(),
    ensures
        exists|i: int|
            0 <= i < partition(data.len() as int, n, cut_at_record(data, delimiter)).len()
                && holds_range(
                #[trigger] partition(data.len() as int, n, cut_at_record(data, delimiter))[i],
                record_ranges(data, delimiter, 0)[k],
            ),
{
    law_slice_partition_covers(data, delimiter, n);
    lemma_aligned_ranges_hold_records(
        data,
        delimiter,
        partition(data.len() as int, n, cut_at_record(data, delimiter)),
        k,
    );
}

/// Law: chunks split no record. Where occurrences of the delimiter do not
/// overlap, every record lies inside one chunk, whatever the chunk size.
pub proof fn law_chunks_split_no_record(
    data: Seq<u8>,
    chunk_size: int,
    delimiter: Seq<u8>,
    k: int,
)
    requires
        0 <= chunk_size,
        delimiter.len() > 0,
        occurs_apart(data, delimiter),
        0 <= k < record_ranges(data, delimiter, 0).len(),
    ensures
        exists|i: int|
            0 <= i < chunk_ranges(data, chunk_size, delimiter, 0).len() && holds_range(
                #[trigger] chunk_ranges(data, chunk_size, delimiter, 0)[i],
                record_ranges(data, delimiter, 0)[k],
            ),
{
    law_chunks_cover(data, chunk_size, delimiter, 0);
    lemma_aligned_ranges_hold_records(
        data,
        delimiter,
        chunk_ranges(data, chunk_size, delimiter, 0),
        k,
    );
}

/// Every partition starts where a record does.
proof fn lemma_partition_starts_record(data: Seq<u8>, delimiter: Seq<u8>, n: int, i: int) -> (k: int)
    requires
        0 < n,
        delimiter.len() > 0,
        occurs_apart(data, delimiter),
        0 <= i < partition(data.len() as int, n, cut_at_record(data, delimiter)).len(),
    ensures
        0 <= k < record_ranges(data, delimiter, 0).len(),
        record_ranges(data, delimiter, 0)[k].0 == partition(
            data.len() as int,
            n,
            cut_at_record(data, delimiter),
        )[i].0,
{
    let len = data.len() as int;
    let parts = partition(len, n, cut_at_record(data, delimiter));
    let records = record_ranges(data, delimiter, 0);
    lemma_records(data, delimiter, 0);
    lemma_tiles_ordered(records, 0, len);
    law_slice_partition_covers(data, delimiter, n);
    lemma_tiles_ordered(parts, 0, len);
    let start = parts[i].0;
    let k = lemma_holder(records, 0, len, start);
    law_partitions_split_no_record(data, delimiter, n, k);
    let j = choose|j: int|
        0 <= j < parts.len() && holds_range(#[trigger] parts[j], records[k]);
    lemma_holders_agree(parts, 0, len, start, i, j);
    k
}

/// In a tiling, later ranges start later.
proof fn lemma_tiles_increasing(ranges: Seq<(int, int)>, from: int, to: int, i: int, j: int)
    requires
        tiles(ranges, from, to),
        0 <= i < j < ranges.len(),
    ensures
        ranges[i].0 < ranges[j].0,
    decreases j - i,
{
    assert(ranges[i].0 < ranges[i].1);
    assert(ranges[i].1 == ranges[i + 1].0);
    if i + 1 < j {
        lemma_tiles_increasing(ranges, from, to, i + 1, j);
    }
}

/// The record at which partition `i` starts comes no earlier than record `i`.
proof fn lemma_enough_records(data: Seq<u8>, delimiter: Seq<u8>, n: int, i: int) -> (k: int)
    requires
        0 < n,
        delimiter.len() > 0,
        occurs_apart(data, delimiter),
        0 <= i < partition(data.len() as int, n, cut_at_record(data, delimiter)).len(),
    ensures
        i <= k < record_ranges(data, delimiter, 0).len(),
        record_ranges(data, delimiter, 0)[k].0 == partition(
            data.len() as int,
            n,
            cut_at_record(data, delimiter),
        )[i].0,
    decreases i,
{
    let len = data.len() as int;
    let parts = partition(len, n, cut_at_record(data, delimiter));
    let records = record_ranges(data, delimiter, 0);
    let k = lemma_partition_starts_record(data, delimiter, n, i);
    if i > 0 {
        let before = lemma_enough_records(data, delimiter, n, i - 1);
        lemma_records(data, delimiter, 0);
        law_slice_partition_covers(data, delimiter, n);
        lemma_tiles_increasing(parts, 0, len, i - 1, i);
        if k <= before {
            if k < before {
                lemma_tiles_increasing(records, 0, len, k, before);
            }
        }
    }
    k
}

/// Law: there are no more partitions than records.
pub proof fn law_no_more_partitions_than_records(data: Seq<u8>, delimiter: Seq<u8>, n: int)
    requires
        0 < n,
        delimiter.len() > 0,
        occurs_apart(data, delimiter),
    ensures
        partition(data.len() as int, n, cut_at_record(data, delimiter)).len() <= record_ranges(
            data,
            delimiter,
            0,
        ).len(),
{
    let parts = partition(data.len() as int, n, cut_at_record(data, delimiter));
    if parts.len() > 0 {
        let k = lemma_enough_records(data, delimiter, n, parts.len() - 1);
    }
}

} // verus!
