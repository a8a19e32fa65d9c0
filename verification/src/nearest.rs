//! Which recorded starts an index cuts at.

use crate::balance::lemma_targets_ordered;
use crate::index::{increasing, index_cuts, index_ranges, nearest_slot, Index};
use crate::ranges::{ideal_target, lemma_ideal_target, ranges_between};
use vstd::arithmetic::div_mod::{lemma_div_is_ordered, lemma_fundamental_div_mod};
use vstd::prelude::*;

verus! {

/// How many records lie between two records.
pub open spec fn distance(a: int, b: int) -> int {
    if a < b {
        b - a
    } else {
        a - b
    }
}

/// Law: no recorded start is nearer to a record than the one that is taken for
/// it, and of two that are equally near the later one is taken. Slot `k` stands
/// for record `k * stride`.
pub proof fn law_taken_slot_is_nearest(record: int, stride: int, slots: int, k: int)
    requires
        0 <= record,
        0 < stride,
        0 <= k < slots,
    ensures
        0 <= nearest_slot(record, stride, slots) < slots,
        distance(nearest_slot(record, stride, slots) * stride, record) <= distance(
            k * stride,
            record,
        ),
        k > nearest_slot(record, stride, slots) ==> distance(
            nearest_slot(record, stride, slots) * stride,
            record,
        ) < distance(k * stride, record),
{
    let slot = nearest_slot(record, stride, slots);
    let half = stride / 2;
    let q = (record + half) / stride;
    let r = (record + half) % stride;
    lemma_fundamental_div_mod(record + half, stride);
    assert(record + half == q * stride + r) by (nonlinear_arith)
        requires
            record + half == stride * q + r,
    ;
    assert(q >= 0) by (nonlinear_arith)
        requires
            record + half == q * stride + r,
            record + half >= 0,
            0 <= r < stride,
    ;
    if k > slot {
        assert(k * stride >= slot * stride + stride) by (nonlinear_arith)
            requires
                k >= slot + 1,
                stride > 0,
        ;
    } else if k < slot {
        assert(k * stride <= slot * stride - stride) by (nonlinear_arith)
            requires
                k <= slot - 1,
                stride > 0,
        ;
    }
    if q >= slots {
        assert(q * stride >= slot * stride + stride) by (nonlinear_arith)
            requires
                q >= slot + 1,
                stride > 0,
        ;
    }
}

/// The recorded start that is taken for cut `i` of `n`.
spec fn taken_start(index: Index, n: int, i: int) -> int {
    index.offsets[nearest_slot(
        ideal_target(index.record_count as int, n, i),
        index.stride as int,
        index.offsets.len() as int,
    )] as int
}

/// Recorded starts grow with their slot.
proof fn lemma_offsets_ordered(index: Index, a: int, b: int)
    requires
        increasing(index.offsets),
        0 <= a <= b < index.offsets.len(),
    ensures
        index.offsets[a] <= index.offsets[b],
    decreases b - a,
{
    if a < b {
        lemma_offsets_ordered(index, a, b - 1);
        assert(index.offsets[b - 1] < index.offsets[b]);
    }
}

/// Later cuts take no earlier starts.
proof fn lemma_taken_ordered(index: Index, n: int, i: int, j: int)
    requires
        increasing(index.offsets),
        index.offsets.len() > 0,
        index.record_count > 0,
        index.stride > 0,
        0 < i <= j < n,
    ensures
        taken_start(index, n, i) <= taken_start(index, n, j),
{
    let count = index.record_count as int;
    let stride = index.stride as int;
    let slots = index.offsets.len() as int;
    let a = ideal_target(count, n, i);
    let b = ideal_target(count, n, j);
    lemma_ideal_target(count, n, i);
    lemma_ideal_target(count, n, j);
    lemma_targets_ordered(count, n, i, j);
    lemma_div_is_ordered(a + stride / 2, b + stride / 2, stride);
    law_taken_slot_is_nearest(a, stride, slots, 0);
    law_taken_slot_is_nearest(b, stride, slots, 0);
    lemma_offsets_ordered(
        index,
        nearest_slot(a, stride, slots),
        nearest_slot(b, stride, slots),
    );
}

/// What a range is: up to the first taken start that lies past its own and inside
/// the source, or up to the end.
proof fn lemma_indexed_step(index: Index, n: int, i: int, last: int, k: int) -> (j: int)
    requires
        0 < n,
        1 <= i <= n,
        0 <= last < index.source_size,
        0 <= k < ranges_between(
            index.source_size as int,
            last,
            index_cuts(index, n, i, last),
        ).len(),
    ensures
        ({
            let range = ranges_between(
                index.source_size as int,
                last,
                index_cuts(index, n, i, last),
            )[k];
            &&& i <= j <= n
            &&& forall|m: int|
                i <= m < j ==> !(range.0 < #[trigger] taken_start(index, n, m) < index.source_size)
            &&& last <= range.0
            &&& j < n ==> range.0 < taken_start(index, n, j) < index.source_size && range.1
                == taken_start(index, n, j)
            &&& j == n ==> range.1 == index.source_size
        }),
    decreases n - i,
{
    let len = index.source_size as int;
    let cuts = index_cuts(index, n, i, last);
    let all = ranges_between(len, last, cuts);
    if i == n {
        n
    } else {
        let offset = taken_start(index, n, i);
        if offset <= last || offset >= len {
            lemma_indexed_step(index, n, i + 1, last, k)
        } else {
            let rest_cuts = index_cuts(index, n, i + 1, offset);
            assert(cuts == seq![offset] + rest_cuts);
            assert(cuts.drop_first() =~= rest_cuts);
            let rest = ranges_between(len, offset, rest_cuts);
            assert(all == seq![(last, offset)] + rest);
            if k == 0 {
                i
            } else {
                assert(all[k] == rest[k - 1]);
                lemma_indexed_step(index, n, i + 1, offset, k - 1)
            }
        }
    }
}

/// Law: a range that an index gives ends no later than at the recorded start
/// nearest to a share of the records, where that start lies past its own: for
/// `n` ranges, share `j` begins with record `j * record_count / n`, rounded down.
pub proof fn law_indexed_ranges_stop_at_shares(
    index: Index,
    n: int,
    ranges: Seq<(int, int)>,
    k: int,
    j: int,
)
    requires
        0 < j < n <= index.source_size,
        index.record_count > 0,
        index_ranges(index, n, index.source_size as int) == Ok::<Seq<(int, int)>, Seq<char>>(
            ranges,
        ),
        0 <= k < ranges.len(),
    ensures
        ({
            let share = (index.record_count * j) / n;
            let slot = nearest_slot(share, index.stride as int, index.offsets.len() as int);
            ranges[k].0 < index.offsets[slot] < index.source_size ==> ranges[k].1
                <= index.offsets[slot]
        }),
{
    let first = lemma_indexed_step(index, n, 1, 0, k);
    assert(ideal_target(index.record_count as int, n, j) == (index.record_count * j) / n);
    if ranges[k].0 < taken_start(index, n, j) < index.source_size {
        assert(first <= j);
        lemma_taken_ordered(index, n, first, j);
    }
}

/// Law: a range that an index gives and that ends short of the end of the source
/// ends at the recorded start nearest to a share of the records: for `n` ranges,
/// share `j` begins with record `j * record_count / n`, rounded down.
pub proof fn law_indexed_ranges_end_at_shares(
    index: Index,
    n: int,
    ranges: Seq<(int, int)>,
    k: int,
) -> (j: int)
    requires
        0 < n <= index.source_size,
        index.record_count > 0,
        index_ranges(index, n, index.source_size as int) == Ok::<Seq<(int, int)>, Seq<char>>(
            ranges,
        ),
        0 <= k < ranges.len(),
        ranges[k].1 < index.source_size,
    ensures
        0 < j < n,
        ranges[k].1 == index.offsets[nearest_slot(
            (index.record_count * j) / n,
            index.stride as int,
            index.offsets.len() as int,
        )],
{
    lemma_indexed_step(index, n, 1, 0, k)
}

/// Law: an index gives no more ranges than there are bytes: asking for more asks
/// for one per byte.
pub proof fn law_indexed_ranges_cap_at_len(index: Index, n: int)
    requires
        0 < index.source_size <= n,
    ensures
        index_ranges(index, n, index.source_size as int) == index_ranges(
            index,
            index.source_size as int,
            index.source_size as int,
        ),
{
}

} // verus!
