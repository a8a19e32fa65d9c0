//! What a refused plan is told.

use crate::coverage::{
    check_alignment, check_range, check_ranges, coverage, law_coverage_accepts_exactly, leads_to,
    lemma_ends_grow, CoverageKind,
};
use crate::framing::{boundary_past, is_boundary, law_boundary_past_is_first, usable, Framing};
use crate::manifest::Plan;
use crate::ranges::{inner_ends, lemma_tiles_ordered, tiles};
use vstd::prelude::*;

verus! {

/// The first `k` ranges follow one another from the first byte on, and none is
/// empty.
pub open spec fn in_order(ranges: Seq<(int, int)>, k: int) -> bool {
    &&& k > 0 ==> ranges[0].0 == 0
    &&& forall|i: int| 0 <= i < k ==> (#[trigger] ranges[i]).0 < ranges[i].1
    &&& forall|i: int, j: int|
        0 <= i && j == i + 1 && j < k ==> (#[trigger] ranges[i]).1 == (#[trigger] ranges[j]).0
}

proof fn lemma_checked_in_order(ranges: Seq<(int, int)>, k: int, i: int, size: int)
    requires
        0 <= i <= k <= ranges.len(),
        in_order(ranges, k),
    ensures
        check_ranges(ranges, i, size) == check_ranges(ranges, k, size),
    decreases k - i,
{
    if i < k {
        lemma_checked_in_order(ranges, k, i + 1, size);
        assert(ranges[i].0 < ranges[i].1);
        if i > 0 {
            assert(ranges[i - 1].0 < ranges[i - 1].1);
            assert(ranges[i - 1].1 == ranges[i].0);
        }
        assert(check_range(ranges, i) is Ok);
    }
}

/// Law: a plan whose ranges do not follow one another is refused for the first
/// range that is out of place. An empty one is inverted; a first one that does
/// not start at 0 has a bad start; another one starts in front of the range
/// before it, inside it, or past its end.
pub proof fn law_misplaced_range_is_named(plan: Plan, data: Seq<u8>, k: int)
    requires
        data.len() == plan.source_size,
        0 <= k < plan.ranges.len(),
        in_order(plan.ranges, k),
        !in_order(plan.ranges, k + 1),
    ensures
        coverage(plan, data) matches Err(f) && {
            let (start, end) = plan.ranges[k];
            let before = plan.ranges[k - 1];
            &&& f.index == Some(k)
            &&& start >= end <==> f.kind == CoverageKind::InvertedRange
            &&& start < end && k == 0 <==> f.kind == CoverageKind::BadStart
            &&& start < end && k > 0 && start < before.0 <==> f.kind == CoverageKind::Unsorted
            &&& start < end && k > 0 && before.0 <= start < before.1 <==> f.kind
                == CoverageKind::Overlap
            &&& start < end && k > 0 && before.1 < start <==> f.kind == CoverageKind::Gap
            &&& f.kind == CoverageKind::InvertedRange ==> f.expected == Some(start) && f.actual
                == Some(end)
            &&& f.kind == CoverageKind::BadStart ==> f.expected == Some(0int) && f.actual == Some(
                start,
            )
            &&& f.kind == CoverageKind::Unsorted ==> f.expected == Some(before.0) && f.actual
                == Some(start)
            &&& f.kind == CoverageKind::Overlap || f.kind == CoverageKind::Gap ==> f.expected
                == Some(before.1) && f.actual == Some(start)
        },
{
    let ranges = plan.ranges;
    let size = data.len() as int;
    lemma_checked_in_order(ranges, k, 0, size);
    if k > 0 {
        assert(ranges[k - 1].0 < ranges[k - 1].1);
    }
    if check_range(ranges, k) is Ok {
        assert forall|i: int| 0 <= i < k + 1 implies (#[trigger] ranges[i]).0 < ranges[i].1 by {}
        assert forall|i: int, j: int| 0 <= i && j == i + 1 && j < k + 1 implies (
        #[trigger] ranges[i]).1 == (#[trigger] ranges[j]).0 by {
            if j == k {
                assert(ranges[k - 1].1 == ranges[k].0);
            }
        }
        assert(in_order(ranges, k + 1));
    }
    assert(check_ranges(ranges, k, size) == check_range(ranges, k));
}

/// Law: a plan whose ranges follow one another but do not end with the source is
/// refused for the end of the last one.
pub proof fn law_bad_end_is_named(plan: Plan, data: Seq<u8>)
    requires
        data.len() == plan.source_size,
        plan.ranges.len() > 0,
        in_order(plan.ranges, plan.ranges.len() as int),
        plan.ranges.last().1 != data.len(),
    ensures
        coverage(plan, data) matches Err(f) && {
            &&& f.kind == CoverageKind::BadEnd
            &&& f.index == Some(plan.ranges.len() - 1)
            &&& f.expected == Some(data.len() as int)
            &&& f.actual == Some(plan.ranges.last().1)
        },
{
    lemma_checked_in_order(plan.ranges, plan.ranges.len() as int, 0, data.len() as int);
}

/// Law: over bytes that are not as many as it says, a plan is refused for that
/// alone; a plan without ranges is refused over any bytes, and accepted over
/// none.
pub proof fn law_size_is_checked_first(plan: Plan, data: Seq<u8>)
    ensures
        data.len() != plan.source_size <==> (coverage(plan, data) matches Err(f) && f.kind
            == CoverageKind::SizeMismatch),
        data.len() != plan.source_size ==> coverage(plan, data)->Err_0.actual == Some(
            data.len() as int,
        ),
        data.len() == plan.source_size && plan.ranges.len() == 0 ==> (coverage(plan, data) is Ok
            <==> data.len() == 0),
        data.len() == plan.source_size && plan.ranges.len() == 0 && data.len() > 0 ==> coverage(
            plan,
            data,
        )->Err_0.kind == CoverageKind::EmptyPlan,
{
    if data.len() == plan.source_size && plan.ranges.len() > 0 {
        lemma_other_kinds(plan.ranges, 0, data.len() as int);
        lemma_alignment_fault(plan.framing, data, plan.ranges, 0, 0);
    }
}

/// Looking at the ranges never finds the size at fault.
proof fn lemma_other_kinds(ranges: Seq<(int, int)>, k: int, size: int)
    requires
        0 <= k,
    ensures
        check_ranges(ranges, k, size) matches Err(f) ==> f.kind != CoverageKind::SizeMismatch,
    decreases ranges.len() - k,
{
    if k < ranges.len() {
        lemma_other_kinds(ranges, k + 1, size);
    }
}

/// Following the records finds ranges that end outside them, and nothing else.
proof fn lemma_alignment_fault(
    framing: Framing,
    data: Seq<u8>,
    ranges: Seq<(int, int)>,
    k: int,
    floor: int,
)
    requires
        0 <= k,
    ensures
        check_alignment(framing, data, ranges, k, floor) matches Err(f) ==> f.kind
            == CoverageKind::Misaligned || f.kind == CoverageKind::Boundary,
    decreases data.len() - floor, ranges.len() - k,
{
    if k < ranges.len() - 1 {
        if let Ok(Some(b)) = boundary_past(framing, data, floor, floor) {
            if floor < b <= data.len() {
                if b == ranges[k].1 {
                    lemma_alignment_fault(framing, data, ranges, k + 1, b);
                } else if b < ranges[k].1 {
                    lemma_alignment_fault(framing, data, ranges, k, b);
                }
            }
        }
    }
}

proof fn lemma_misaligned_named(
    framing: Framing,
    data: Seq<u8>,
    ranges: Seq<(int, int)>,
    k: int,
    floor: int,
)
    requires
        tiles(ranges, 0, data.len() as int),
        0 <= k,
    ensures
        check_alignment(framing, data, ranges, k, floor) matches Err(f) ==> {
            &&& f.index matches Some(m)
            &&& k <= m < ranges.len() - 1
            &&& !leads_to(framing, data, floor, ranges[m].1)
            &&& forall|i: int|
                k <= i < m ==> leads_to(framing, data, floor, (#[trigger] ranges[i]).1)
            &&& f.expected == Some(ranges[m].1)
            &&& f.kind == CoverageKind::Misaligned ==> (f.actual matches Some(b) ==> b
                > ranges[m].1 && leads_to(framing, data, floor, b))
        },
    decreases data.len() - floor, ranges.len() - k,
{
    if k < ranges.len() - 1 {
        let end = ranges[k].1;
        assert forall|i: int| k < i < ranges.len() - 1 implies end < (#[trigger] ranges[i]).1 by {
            lemma_ends_grow(ranges, 0, data.len() as int, k, i);
        }
        if let Ok(Some(b)) = boundary_past(framing, data, floor, floor) {
            if floor < b <= data.len() {
                if b == end {
                    lemma_misaligned_named(framing, data, ranges, k + 1, b);
                    assert forall|i: int| k < i < ranges.len() - 1 implies leads_to(
                        framing,
                        data,
                        floor,
                        (#[trigger] ranges[i]).1,
                    ) == leads_to(framing, data, b, ranges[i].1) by {}
                } else if b < end {
                    lemma_misaligned_named(framing, data, ranges, k, b);
                    assert forall|i: int| k <= i < ranges.len() - 1 implies leads_to(
                        framing,
                        data,
                        floor,
                        (#[trigger] ranges[i]).1,
                    ) == leads_to(framing, data, b, ranges[i].1) by {}
                }
            }
        }
    }
}

/// Law: a plan whose ranges cover the bytes is refused, if at all, for the first
/// range that does not end with a record, or for a framing that cannot be used.
/// Where another boundary is named, the records lead to it, past that range.
pub proof fn law_misaligned_range_is_named(plan: Plan, data: Seq<u8>)
    requires
        data.len() == plan.source_size,
        plan.ranges.len() > 0,
        tiles(plan.ranges, 0, data.len() as int),
    ensures
        coverage(plan, data) matches Err(f) ==> {
            &&& f.kind == CoverageKind::InvalidFraming <==> !usable(plan.framing)
            &&& usable(plan.framing) ==> {
                &&& f.kind == CoverageKind::Misaligned || f.kind == CoverageKind::Boundary
                &&& f.index matches Some(m)
                &&& 0 <= m < plan.ranges.len() - 1
                &&& f.expected == Some(plan.ranges[m].1)
                &&& f.kind == CoverageKind::Misaligned ==> (f.actual matches Some(b) ==> b
                    > plan.ranges[m].1 && leads_to(plan.framing, data, 0, b))
                &&& !leads_to(plan.framing, data, 0, plan.ranges[m].1)
                &&& forall|i: int|
                    0 <= i < m ==> leads_to(plan.framing, data, 0, (#[trigger] plan.ranges[i]).1)
            }
        },
{
    let ranges = plan.ranges;
    let count = ranges.len() as int;
    lemma_tiles_ordered(ranges, 0, data.len() as int);
    assert(in_order(ranges, count));
    lemma_checked_in_order(ranges, count, 0, data.len() as int);
    lemma_alignment_fault(plan.framing, data, ranges, 0, 0);
    lemma_misaligned_named(plan.framing, data, ranges, 0, 0);
}

/// Records that are followed lead to boundaries.
proof fn lemma_led_to_boundary(framing: Framing, data: Seq<u8>, floor: int, end: int)
    requires
        usable(framing),
        0 <= floor,
        leads_to(framing, data, floor, end),
    ensures
        is_boundary(framing, data, end),
        floor < end <= data.len(),
    decreases data.len() - floor,
{
    law_boundary_past_is_first(framing, data, floor, floor);
    if let Ok(Some(b)) = boundary_past(framing, data, floor, floor) {
        if b != end {
            lemma_led_to_boundary(framing, data, b, end);
        }
    }
}

/// Law: in an accepted plan of a framing that is not known by name only, every
/// range but the last ends at a record boundary.
pub proof fn law_accepted_ranges_are_aligned(plan: Plan, data: Seq<u8>)
    requires
        coverage(plan, data) is Ok,
        !(plan.framing is Custom),
    ensures
        inner_ends(plan.ranges, |end: int| is_boundary(plan.framing, data, end)),
{
    law_coverage_accepts_exactly(plan, data);
    let led = |end: int| leads_to(plan.framing, data, 0, end);
    let aligned = |end: int| is_boundary(plan.framing, data, end);
    assert forall|i: int| 0 <= i < plan.ranges.len() - 1 implies aligned(
        (#[trigger] plan.ranges[i]).1,
    ) by {
        assert(led(plan.ranges[i].1));
        lemma_led_to_boundary(plan.framing, data, 0, plan.ranges[i].1);
    }
}

} // verus!
