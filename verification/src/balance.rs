//! Where chunks and partitions end, said of the bytes alone.
//!
//! A range never runs on past a record end at which it could have stopped, and
//! it stops nowhere else.

use crate::error::SourceError;
use crate::framing::{
    boundary_past, is_boundary, law_boundary_advances, law_boundary_past_is_first, reaches_back,
    usable, BuiltinFraming, FramingStrategy,
};
use crate::ranges::{
    cut_points, cuts_forward, framed_points, ideal_target, lemma_ideal_target, partition,
    ranges_between,
};
use crate::scanner::{
    chunk_end, chunk_ranges, cut_at_record, fixed_count, fixed_range, lemma_chunk_end, lemma_cuts,
    lemma_fixed_count,
};
use crate::search::{lemma_first_from_is_first, occurs_at};
use crate::source::strategy_ranges;
use vstd::arithmetic::div_mod::lemma_fundamental_div_mod;
use vstd::prelude::*;

verus! {

/// Law: a chunk is as short as it can be. A complete delimiter that starts a
/// full chunk size (at least one byte) after the start of a chunk, or later,
/// never ends inside that chunk.
pub proof fn law_chunks_are_shortest(
    data: Seq<u8>,
    chunk_size: int,
    delimiter: Seq<u8>,
    start: int,
    i: int,
    at: int,
)
    requires
        0 <= start <= data.len(),
        0 <= chunk_size,
        delimiter.len() > 0,
        0 <= i < chunk_ranges(data, chunk_size, delimiter, start).len(),
        chunk_ranges(data, chunk_size, delimiter, start)[i].0 + chunk_size <= at,
        chunk_ranges(data, chunk_size, delimiter, start)[i].0 + 1 <= at,
        at + delimiter.len() <= data.len(),
        data.subrange(at, at + delimiter.len()) == delimiter,
    ensures
        chunk_ranges(data, chunk_size, delimiter, start)[i].1 <= at + delimiter.len(),
    decreases data.len() - start,
{
    let end = chunk_end(data, chunk_size, delimiter, start);
    lemma_chunk_end(data, chunk_size, delimiter, start);
    if i == 0 {
        assert(occurs_at(data, delimiter, at));
        let target = start + if chunk_size == 0 {
            1
        } else {
            chunk_size
        };
        lemma_first_from_is_first(data, delimiter, target);
    } else {
        let rest = chunk_ranges(data, chunk_size, delimiter, end);
        assert(chunk_ranges(data, chunk_size, delimiter, start)[i] == rest[i - 1]);
        law_chunks_are_shortest(data, chunk_size, delimiter, end, i - 1, at);
    }
}

/// Law: a chunk that ends short of the end of the data ends right after a
/// complete delimiter, and that delimiter starts a full chunk size (at least one
/// byte) after the start of the chunk, or later.
pub proof fn law_chunks_are_full(
    data: Seq<u8>,
    chunk_size: int,
    delimiter: Seq<u8>,
    start: int,
    i: int,
)
    requires
        0 <= start <= data.len(),
        0 <= chunk_size,
        delimiter.len() > 0,
        0 <= i < chunk_ranges(data, chunk_size, delimiter, start).len(),
        chunk_ranges(data, chunk_size, delimiter, start)[i].1 < data.len(),
    ensures
        ({
            let chunk = chunk_ranges(data, chunk_size, delimiter, start)[i];
            &&& chunk.0 + chunk_size <= chunk.1 - delimiter.len()
            &&& chunk.0 + 1 <= chunk.1 - delimiter.len()
            &&& data.subrange(chunk.1 - delimiter.len(), chunk.1) == delimiter
        }),
    decreases data.len() - start,
{
    let end = chunk_end(data, chunk_size, delimiter, start);
    lemma_chunk_end(data, chunk_size, delimiter, start);
    if i == 0 {
        let target = start + if chunk_size == 0 {
            1
        } else {
            chunk_size
        };
        lemma_first_from_is_first(data, delimiter, target);
    } else {
        let rest = chunk_ranges(data, chunk_size, delimiter, end);
        assert(chunk_ranges(data, chunk_size, delimiter, start)[i] == rest[i - 1]);
        law_chunks_are_full(data, chunk_size, delimiter, end, i - 1);
    }
}

/// Law: with a chunk size of `c` (at least one byte), byte `p` lies in
/// fixed-size chunk `p / c`, which starts at the last multiple of `c` up to `p`
/// and ends `c` bytes on or with the file.
pub proof fn law_fixed_chunk_of_byte(file_len: int, chunk_size: int, p: int)
    requires
        0 <= p < file_len,
        0 <= chunk_size,
    ensures
        ({
            let c = if chunk_size <= 1 {
                1
            } else {
                chunk_size
            };
            let range = fixed_range(file_len, chunk_size, p / c);
            &&& 0 <= p / c < fixed_count(file_len, chunk_size)
            &&& range.0 == p - p % c
            &&& range.0 <= p < range.1
            &&& range.1 == range.0 + c || range.1 == file_len < range.0 + c
        }),
{
    let c = if chunk_size <= 1 {
        1
    } else {
        chunk_size
    };
    lemma_fixed_count(file_len, chunk_size);
    lemma_fundamental_div_mod(p, c);
    assert((p / c) * c == p - p % c) by (nonlinear_arith)
        requires
            p == c * (p / c) + p % c,
    ;
    assert(p / c >= 0) by (nonlinear_arith)
        requires
            p >= 0,
            c >= 1,
            p == c * (p / c) + p % c,
            0 <= p % c < c,
    ;
}

/// Law: there are as many fixed-size chunks as it takes to hold the file, and no
/// more.
pub proof fn law_fixed_chunks_suffice(file_len: int, chunk_size: int)
    requires
        0 <= file_len,
        0 <= chunk_size,
    ensures
        ({
            let c = if chunk_size <= 1 {
                1
            } else {
                chunk_size
            };
            let count = fixed_count(file_len, chunk_size);
            (count - 1) * c < file_len || file_len == 0 && count == 0
        }),
        ({
            let c = if chunk_size <= 1 {
                1
            } else {
                chunk_size
            };
            file_len <= fixed_count(file_len, chunk_size) * c
        }),
{
    let c = if chunk_size <= 1 {
        1
    } else {
        chunk_size
    };
    lemma_fixed_count(file_len, chunk_size);
    let count = fixed_count(file_len, chunk_size);
    assert(count * c >= file_len);
    if count > 0 {
        assert((count - 1) * c < file_len);
    }
}

/// What a range of a partition is: where the first target past its start is cut,
/// or up to the end where no target follows.
pub proof fn lemma_step(
    len: int,
    n: int,
    i: int,
    last: int,
    cut: spec_fn(int) -> int,
    k: int,
) -> (j: int)
    requires
        0 < len,
        0 < n,
        1 <= i <= n,
        0 <= last <= len,
        cuts_forward(len, cut),
        0 <= k < ranges_between(len, last, cut_points(len, n, i, last, cut)).len(),
    ensures
        ({
            let range = ranges_between(len, last, cut_points(len, n, i, last, cut))[k];
            &&& last <= range.0
            &&& i <= j <= n
            &&& forall|m: int| i <= m < j ==> #[trigger] ideal_target(len, n, m) <= range.0
            &&& j < n ==> range.0 < ideal_target(len, n, j) < len && range.1 == cut(
                ideal_target(len, n, j),
            )
            &&& j == n ==> range.1 == len
        }),
    decreases n - i,
{
    let cuts = cut_points(len, n, i, last, cut);
    let all = ranges_between(len, last, cuts);
    if i == n {
        n
    } else {
        lemma_ideal_target(len, n, i);
        let t = ideal_target(len, n, i);
        if t <= last {
            lemma_step(len, n, i + 1, last, cut, k)
        } else {
            let c = cut(t);
            let rest_cuts = cut_points(len, n, i + 1, c, cut);
            assert(cuts.drop_first() =~= rest_cuts);
            let rest = ranges_between(len, c, rest_cuts);
            assert(all == seq![(last, c)] + rest);
            if k == 0 {
                i
            } else {
                assert(all[k] == rest[k - 1]);
                lemma_step(len, n, i + 1, c, cut, k - 1)
            }
        }
    }
}

/// The targets grow with their number.
pub proof fn lemma_targets_ordered(len: int, n: int, i: int, j: int)
    requires
        0 < len,
        0 < n,
        0 <= i <= j <= n,
    ensures
        ideal_target(len, n, i) <= ideal_target(len, n, j),
    decreases j - i,
{
    if i < j {
        lemma_ideal_target(len, n, i);
        lemma_targets_ordered(len, n, i + 1, j);
    }
}

/// Law: of `n` partitions of a slice, none runs past its share further than to
/// the end of a record. Where target `j`, which is `j` shares of `n` rounded
/// down, lies past the start of a partition, no complete delimiter that starts
/// at the target or later ends inside that partition.
pub proof fn law_partitions_stop_at_first_record(
    data: Seq<u8>,
    delimiter: Seq<u8>,
    n: int,
    k: int,
    j: int,
    at: int,
)
    requires
        delimiter.len() > 0,
        0 < j < n,
        0 <= k < partition(data.len() as int, n, cut_at_record(data, delimiter)).len(),
        partition(data.len() as int, n, cut_at_record(data, delimiter))[k].0 < (data.len() * j)
            / n <= at,
        at + delimiter.len() <= data.len(),
        data.subrange(at, at + delimiter.len()) == delimiter,
    ensures
        partition(data.len() as int, n, cut_at_record(data, delimiter))[k].1 <= at
            + delimiter.len(),
{
    let len = data.len() as int;
    let cut = cut_at_record(data, delimiter);
    lemma_cuts(data, delimiter);
    let first = lemma_step(len, n, 1, 0, cut, k);
    assert(occurs_at(data, delimiter, at));
    assert(ideal_target(len, n, j) == (data.len() * j) / n);
    assert(first <= j);
    lemma_targets_ordered(len, n, first, j);
    lemma_first_from_is_first(data, delimiter, ideal_target(len, n, first));
}

/// Law: a partition of a slice that ends short of the end of the data ends right
/// after a complete delimiter which starts at a target of the partition or
/// later: at `j` shares of `n`, rounded down, for a number `j` for which this
/// lies past the start of the partition.
pub proof fn law_partitions_reach_a_target(
    data: Seq<u8>,
    delimiter: Seq<u8>,
    n: int,
    k: int,
) -> (j: int)
    requires
        delimiter.len() > 0,
        0 < n,
        0 <= k < partition(data.len() as int, n, cut_at_record(data, delimiter)).len(),
        partition(data.len() as int, n, cut_at_record(data, delimiter))[k].1 < data.len(),
    ensures
        ({
            let range = partition(data.len() as int, n, cut_at_record(data, delimiter))[k];
            &&& 0 < j < n
            &&& range.0 < (data.len() * j) / n <= range.1 - delimiter.len()
            &&& data.subrange(range.1 - delimiter.len(), range.1) == delimiter
        }),
{
    let len = data.len() as int;
    let cut = cut_at_record(data, delimiter);
    lemma_cuts(data, delimiter);
    let first = lemma_step(len, n, 1, 0, cut, k);
    assert(ideal_target(len, n, first) == (data.len() * first) / n);
    lemma_first_from_is_first(data, delimiter, ideal_target(len, n, first));
    first
}

/// What a range of a framed partition is: up to the boundary that the framing
/// puts after the first target past its start, or up to the end where it puts
/// none or where no target follows.
proof fn lemma_framed_step<E>(
    len: int,
    n: int,
    i: int,
    last: int,
    cut: spec_fn(int, int) -> Result<Option<int>, E>,
    points: Seq<int>,
    k: int,
) -> (j: int)
    requires
        0 < len,
        0 < n,
        1 <= i <= n,
        0 <= last <= len,
        forall|l: int, t: int|
            0 <= l < t < len ==> (#[trigger] cut(l, t) matches Ok(Some(b)) ==> t < b <= len),
        framed_points(len, n, i, last, cut) == Ok::<Seq<int>, E>(points),
        0 <= k < ranges_between(len, last, points).len(),
    ensures
        ({
            let range = ranges_between(len, last, points)[k];
            &&& last <= range.0
            &&& i <= j <= n
            &&& forall|m: int| i <= m < j ==> #[trigger] ideal_target(len, n, m) <= range.0
            &&& j < n ==> range.0 < ideal_target(len, n, j) < len && match cut(
                range.0,
                ideal_target(len, n, j),
            ) {
                Ok(Some(b)) => range.1 == b,
                Ok(None) => range.1 == len,
                Err(_) => false,
            }
            &&& j == n ==> range.1 == len
        }),
    decreases n - i,
{
    let all = ranges_between(len, last, points);
    if i == n {
        n
    } else {
        lemma_ideal_target(len, n, i);
        let t = ideal_target(len, n, i);
        if t <= last {
            lemma_framed_step(len, n, i + 1, last, cut, points, k)
        } else {
            match cut(last, t) {
                Ok(Some(b)) => {
                    let rest_points = framed_points(len, n, i + 1, b, cut)->Ok_0;
                    assert(points == seq![b] + rest_points);
                    assert(points.drop_first() =~= rest_points);
                    let rest = ranges_between(len, b, rest_points);
                    assert(all == seq![(last, b)] + rest);
                    if k == 0 {
                        i
                    } else {
                        assert(all[k] == rest[k - 1]);
                        lemma_framed_step(len, n, i + 1, b, cut, rest_points, k - 1)
                    }
                },
                _ => {
                    assert(points == seq![len]);
                    assert(points.drop_first() =~= Seq::empty());
                    assert(ranges_between(len, len, Seq::empty()) =~= Seq::empty());
                    assert(all =~= seq![(last, len)]);
                    i
                },
            }
        }
    }
}

/// The step that leads to a range of a built-in framing.
proof fn lemma_builtin_step(
    strategy: BuiltinFraming,
    data: Seq<u8>,
    n: int,
    ranges: Seq<(int, int)>,
    k: int,
) -> (j: int)
    requires
        usable(strategy@),
        0 < n <= data.len(),
        strategy_ranges(&strategy, data, n) == Ok::<Seq<(int, int)>, SourceError>(ranges),
        0 <= k < ranges.len(),
    ensures
        0 <= ranges[k].0,
        1 <= j <= n,
        forall|m: int|
            1 <= m < j ==> #[trigger] ideal_target(data.len() as int, n, m) <= ranges[k].0,
        j < n ==> ranges[k].0 < ideal_target(data.len() as int, n, j) < data.len()
            && match boundary_past(
            strategy@,
            data,
            ranges[k].0,
            ideal_target(data.len() as int, n, j),
        ) {
            Ok(Some(b)) => ranges[k].1 == b,
            Ok(None) => ranges[k].1 == data.len(),
            Err(_) => false,
        },
        j == n ==> ranges[k].1 == data.len(),
{
    let len = data.len() as int;
    let cut = |last: int, target: int| strategy.boundary(data, last, target);
    assert forall|l: int, t: int| 0 <= l < t < len implies (#[trigger] cut(l, t) matches Ok(
        Some(b),
    ) ==> t < b <= len) by {
        law_boundary_advances(strategy@, data, l, t);
    }
    let points = framed_points(len, n, 1, 0, cut)->Ok_0;
    lemma_framed_step(len, n, 1, 0, cut, points, k)
}

/// Law: of `n` ranges that a built-in framing plans, none runs past its share
/// further than to the end of a record. Where target `j`, which is `j` shares of
/// `n` rounded down, lies past the start of a range, no record boundary past the
/// target lies inside that range. (A delimiter that reaches back over the start
/// of the range does not count.)
pub proof fn law_framed_ranges_stop_at_first_boundary(
    strategy: BuiltinFraming,
    data: Seq<u8>,
    n: int,
    ranges: Seq<(int, int)>,
    k: int,
    j: int,
    b: int,
)
    requires
        usable(strategy@),
        0 < j < n <= data.len(),
        strategy_ranges(&strategy, data, n) == Ok::<Seq<(int, int)>, SourceError>(ranges),
        0 <= k < ranges.len(),
        ranges[k].0 < (data.len() * j) / n < b,
        is_boundary(strategy@, data, b),
        !reaches_back(strategy@, ranges[k].0, b),
    ensures
        ranges[k].1 <= b,
{
    let len = data.len() as int;
    let first = lemma_builtin_step(strategy, data, n, ranges, k);
    assert(ideal_target(len, n, j) == (data.len() * j) / n);
    assert(first <= j);
    lemma_targets_ordered(len, n, first, j);
    law_boundary_past_is_first(strategy@, data, ranges[k].0, ideal_target(len, n, first));
}

/// Law: a range that a built-in framing plans and that ends short of the end of
/// the data ends at a record boundary past one of its targets: past `j` shares
/// of `n`, rounded down, for a number `j` for which this lies past the start of
/// the range.
pub proof fn law_framed_ranges_reach_a_target(
    strategy: BuiltinFraming,
    data: Seq<u8>,
    n: int,
    ranges: Seq<(int, int)>,
    k: int,
) -> (j: int)
    requires
        usable(strategy@),
        0 < n <= data.len(),
        strategy_ranges(&strategy, data, n) == Ok::<Seq<(int, int)>, SourceError>(ranges),
        0 <= k < ranges.len(),
        ranges[k].1 < data.len(),
    ensures
        0 < j < n,
        ranges[k].0 < (data.len() * j) / n < ranges[k].1,
        is_boundary(strategy@, data, ranges[k].1),
{
    let len = data.len() as int;
    let first = lemma_builtin_step(strategy, data, n, ranges, k);
    assert(ideal_target(len, n, first) == (data.len() * first) / n);
    law_boundary_past_is_first(strategy@, data, ranges[k].0, ideal_target(len, n, first));
    first
}

/// Law: a built-in framing plans no more ranges than there are bytes: asking for
/// more asks for one per byte.
pub proof fn law_framed_ranges_cap_at_len(strategy: BuiltinFraming, data: Seq<u8>, n: int)
    requires
        0 < data.len() <= n,
    ensures
        strategy_ranges(&strategy, data, n) == strategy_ranges(
            &strategy,
            data,
            data.len() as int,
        ),
{
}

} // verus!
