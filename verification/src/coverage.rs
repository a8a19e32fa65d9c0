//! Whether the ranges of a plan cover given bytes, record by record.

use crate::error::SourceError;
use crate::framing::{
    boundary_past, is_boundary, law_boundary_advances, law_boundary_past_is_first,
    lemma_later_multiple, lemma_next_multiple, lemma_prefixed_first, nothing_overlaps,
    prefixed_boundary, usable, usable_error, BoundaryScanner, BuiltinFraming, Framing,
    FramingStrategy,
};
use crate::index::{
    every_nth, index_ranges, law_indexed_cuts_are_record_starts, record_starts, Index,
};
use crate::manifest::{Plan, RangePlan};
use crate::ranges::{
    inner_ends, int_ranges, law_framed_partition_covers, lemma_tiles_ordered, tiles,
};
use crate::search::{lemma_first_from_is_first, occurs_at};
use crate::source::{strategy_ranges, SliceSource};
use crate::text::{dec_text, push_decimal};
use vstd::prelude::*;

verus! {

/// Why the ranges do not cover the bytes.
#[derive(Clone, Copy, Debug, PartialEq, Eq, Structural)]
pub enum CoverageKind {
    /// There are bytes but no ranges.
    EmptyPlan,
    /// A range does not end past its start.
    InvertedRange,
    /// The first range does not start at 0.
    BadStart,
    /// The last range does not end with the source.
    BadEnd,
    /// The bytes are not as many as the plan says.
    SizeMismatch,
    /// A range starts in front of the one before it.
    Unsorted,
    /// A range starts inside the one before it.
    Overlap,
    /// A range starts past the end of the one before it.
    Gap,
    /// A range but the last does not end with a record.
    Misaligned,
    /// The records could not be followed.
    Boundary,
    /// The framing cannot be used.
    InvalidFraming,
}

impl CoverageKind {
    /// The name used in logs and messages.
    pub open spec fn name(self) -> Seq<char> {
        match self {
            CoverageKind::EmptyPlan => "empty_plan"@,
            CoverageKind::InvertedRange => "inverted_range"@,
            CoverageKind::BadStart => "bad_start"@,
            CoverageKind::BadEnd => "bad_end"@,
            CoverageKind::SizeMismatch => "size_mismatch"@,
            CoverageKind::Unsorted => "unsorted"@,
            CoverageKind::Gap => "gap"@,
            CoverageKind::Overlap => "overlap"@,
            CoverageKind::Misaligned => "misaligned"@,
            CoverageKind::Boundary => "replay_failed"@,
            CoverageKind::InvalidFraming => "invalid_framing"@,
        }
    }

    /// The name used in logs and messages.
    pub fn as_str(self) -> (r: &'static str)
        ensures
            r@ == self.name(),
    {
        match self {
            CoverageKind::EmptyPlan => "empty_plan",
            CoverageKind::InvertedRange => "inverted_range",
            CoverageKind::BadStart => "bad_start",
            CoverageKind::BadEnd => "bad_end",
            CoverageKind::SizeMismatch => "size_mismatch",
            CoverageKind::Unsorted => "unsorted",
            CoverageKind::Gap => "gap",
            CoverageKind::Overlap => "overlap",
            CoverageKind::Misaligned => "misaligned",
            CoverageKind::Boundary => "replay_failed",
            CoverageKind::InvalidFraming => "invalid_framing",
        }
    }
}

/// A failed check, as mathematical data.
#[verifier::ext_equal]
pub struct CoverageFault {
    pub kind: CoverageKind,
    pub index: Option<int>,
    pub expected: Option<int>,
    pub actual: Option<int>,
    pub detail: Seq<char>,
}

/// A failed check.
#[derive(Debug, Clone, PartialEq, Eq)]
pub struct CoverageError {
    /// The reason, for programs.
    pub kind: CoverageKind,
    /// The range at fault, where one is.
    pub index: Option<usize>,
    /// The offset that was expected.
    pub expected: Option<usize>,
    /// The offset that was found.
    pub actual: Option<usize>,
    /// The reason, for people.
    pub detail: String,
}

/// An optional offset, as mathematical data.
pub open spec fn opt_int(value: Option<usize>) -> Option<int> {
    match value {
        Some(v) => Some(v as int),
        None => None,
    }
}

impl View for CoverageError {
    type V = CoverageFault;

    open spec fn view(&self) -> CoverageFault {
        CoverageFault {
            kind: self.kind,
            index: opt_int(self.index),
            expected: opt_int(self.expected),
            actual: opt_int(self.actual),
            detail: self.detail@,
        }
    }
}

impl CoverageError {
    /// The error as a text.
    pub fn to_string(&self) -> (r: String)
        ensures
            r@ == "coverage "@ + self.kind.name() + ": "@ + self.detail@,
    {
        let mut out = "coverage ".to_owned();
        out.push_str(self.kind.as_str());
        out.push_str(": ");
        out.push_str(self.detail.as_str());
        out
    }
}

/// A failed check.
pub open spec fn fault(
    kind: CoverageKind,
    index: Option<int>,
    expected: Option<int>,
    actual: Option<int>,
    detail: Seq<char>,
) -> Result<(), CoverageFault> {
    Err(CoverageFault { kind, index, expected, actual, detail })
}

/// `range k`.
pub open spec fn range_name(k: int) -> Seq<char> {
    "range "@ + dec_text(k as nat)
}

/// Range `k` is not empty and follows the one before it.
pub open spec fn check_range(ranges: Seq<(int, int)>, k: int) -> Result<(), CoverageFault> {
    let start = ranges[k].0;
    let end = ranges[k].1;
    if start >= end {
        fault(
            CoverageKind::InvertedRange,
            Some(k),
            Some(start),
            Some(end),
            range_name(k) + " is inverted: start "@ + dec_text(start as nat) + " >= end "@
                + dec_text(end as nat),
        )
    } else if k == 0 {
        if start != 0 {
            fault(
                CoverageKind::BadStart,
                Some(0),
                Some(0),
                Some(start),
                "first range starts at "@ + dec_text(start as nat) + ", expected 0"@,
            )
        } else {
            Ok(())
        }
    } else if start < ranges[k - 1].0 {
        fault(
            CoverageKind::Unsorted,
            Some(k),
            Some(ranges[k - 1].0),
            Some(start),
            range_name(k) + " starts at "@ + dec_text(start as nat) + ", before previous start "@
                + dec_text(ranges[k - 1].0 as nat),
        )
    } else if start < ranges[k - 1].1 {
        fault(
            CoverageKind::Overlap,
            Some(k),
            Some(ranges[k - 1].1),
            Some(start),
            range_name(k) + " starts at "@ + dec_text(start as nat) + ", before previous end "@
                + dec_text(ranges[k - 1].1 as nat),
        )
    } else if start > ranges[k - 1].1 {
        fault(
            CoverageKind::Gap,
            Some(k),
            Some(ranges[k - 1].1),
            Some(start),
            range_name(k) + " starts at "@ + dec_text(start as nat) + ", after previous end "@
                + dec_text(ranges[k - 1].1 as nat),
        )
    } else {
        Ok(())
    }
}

/// The ranges from `k` on are in order, and the last one ends at `size`.
pub open spec fn check_ranges(ranges: Seq<(int, int)>, k: int, size: int) -> Result<
    (),
    CoverageFault,
>
    decreases ranges.len() - k,
{
    if k >= ranges.len() {
        if ranges.last().1 != size {
            fault(
                CoverageKind::BadEnd,
                Some(ranges.len() - 1),
                Some(size),
                Some(ranges.last().1),
                "last range ends at "@ + dec_text(ranges.last().1 as nat) + ", expected size "@
                    + dec_text(size as nat),
            )
        } else {
            Ok(())
        }
    } else {
        match check_range(ranges, k) {
            Err(e) => Err(e),
            Ok(_) => check_ranges(ranges, k + 1, size),
        }
    }
}

/// The ranges from `k` on, but for the last, end at record boundaries, of which
/// `floor` is the last one seen.
pub open spec fn check_alignment(
    framing: Framing,
    data: Seq<u8>,
    ranges: Seq<(int, int)>,
    k: int,
    floor: int,
) -> Result<(), CoverageFault>
    decreases data.len() - floor, ranges.len() - k,
{
    if k >= ranges.len() - 1 {
        Ok(())
    } else {
        let end = ranges[k].1;
        match boundary_past(framing, data, floor, floor) {
            Err(e) => fault(
                CoverageKind::Boundary,
                Some(k),
                Some(end),
                None,
                "boundary replay failed before range end "@ + dec_text(end as nat) + ": "@
                    + e.text(),
            ),
            Ok(None) => fault(
                CoverageKind::Misaligned,
                Some(k),
                Some(end),
                None,
                range_name(k) + " end "@ + dec_text(end as nat)
                    + " is past the last record boundary"@,
            ),
            Ok(Some(b)) => if b <= floor || b > data.len() {
                fault(
                    CoverageKind::Boundary,
                    Some(k),
                    Some(end),
                    Some(b),
                    "boundary scanner did not advance at "@ + dec_text(b as nat),
                )
            } else if b > end {
                fault(
                    CoverageKind::Misaligned,
                    Some(k),
                    Some(end),
                    Some(b),
                    range_name(k) + " end "@ + dec_text(end as nat)
                        + " is not a record boundary (next is "@ + dec_text(b as nat) + ")"@,
                )
            } else if b == end {
                check_alignment(framing, data, ranges, k + 1, b)
            } else {
                check_alignment(framing, data, ranges, k, b)
            },
        }
    }
}

/// What is wrong with the ranges of a plan over `data`, if anything is.
pub open spec fn coverage(plan: Plan, data: Seq<u8>) -> Result<(), CoverageFault> {
    if data.len() != plan.source_size {
        fault(
            CoverageKind::SizeMismatch,
            None,
            if plan.source_size <= usize::MAX {
                Some(plan.source_size as int)
            } else {
                None
            },
            Some(data.len() as int),
            "plan covers "@ + dec_text(plan.source_size) + " bytes but "@ + dec_text(data.len())
                + " bytes were supplied"@,
        )
    } else if plan.ranges.len() == 0 {
        if data.len() == 0 {
            Ok(())
        } else {
            fault(
                CoverageKind::EmptyPlan,
                None,
                Some(data.len() as int),
                Some(0),
                "plan has no ranges for "@ + dec_text(data.len()) + " bytes"@,
            )
        }
    } else {
        match check_ranges(plan.ranges, 0, data.len() as int) {
            Err(e) => Err(e),
            Ok(_) => if !usable(plan.framing) {
                fault(
                    CoverageKind::InvalidFraming,
                    None,
                    None,
                    None,
                    "framing descriptor is not a usable builtin: "@ + usable_error(
                        plan.framing,
                    ).text(),
                )
            } else if plan.framing is Custom {
                Ok(())
            } else {
                check_alignment(plan.framing, data, plan.ranges, 0, 0)
            },
        }
    }
}

/// The text of range `k`'s name.
fn range_label(k: usize) -> (r: String)
    ensures
        r@ == range_name(k as int),
{
    let mut text = "range ".to_owned();
    push_decimal(&mut text, k as u128);
    text
}

fn coverage_error(
    kind: CoverageKind,
    index: Option<usize>,
    expected: Option<usize>,
    actual: Option<usize>,
    detail: String,
) -> (r: CoverageError)
    ensures
        fault(kind, opt_int(index), opt_int(expected), opt_int(actual), detail@) == Err::<
            (),
            CoverageFault,
        >(r@),
{
    CoverageError { kind, index, expected, actual, detail }
}

fn verify_range(ranges: &[(usize, usize)], k: usize) -> (r: Result<(), CoverageError>)
    requires
        k < ranges@.len(),
    ensures
        match r {
            Ok(_) => check_range(int_ranges(ranges@), k as int) == Ok::<(), CoverageFault>(()),
            Err(e) => check_range(int_ranges(ranges@), k as int) == Err::<(), CoverageFault>(e@),
        },
{
    let (start, end) = ranges[k];
    if start >= end {
        let mut detail = range_label(k);
        detail.push_str(" is inverted: start ");
        push_decimal(&mut detail, start as u128);
        detail.push_str(" >= end ");
        push_decimal(&mut detail, end as u128);
        return Err(
            coverage_error(CoverageKind::InvertedRange, Some(k), Some(start), Some(end), detail),
        );
    }
    if k == 0 {
        if start != 0 {
            let mut detail = "first range starts at ".to_owned();
            push_decimal(&mut detail, start as u128);
            detail.push_str(", expected 0");
            return Err(
                coverage_error(CoverageKind::BadStart, Some(0), Some(0), Some(start), detail),
            );
        }
        return Ok(());
    }
    let (previous_start, previous_end) = ranges[k - 1];
    if start < previous_start {
        let mut detail = range_label(k);
        detail.push_str(" starts at ");
        push_decimal(&mut detail, start as u128);
        detail.push_str(", before previous start ");
        push_decimal(&mut detail, previous_start as u128);
        return Err(
            coverage_error(
                CoverageKind::Unsorted,
                Some(k),
                Some(previous_start),
                Some(start),
                detail,
            ),
        );
    }
    if start < previous_end {
        let mut detail = range_label(k);
        detail.push_str(" starts at ");
        push_decimal(&mut detail, start as u128);
        detail.push_str(", before previous end ");
        push_decimal(&mut detail, previous_end as u128);
        return Err(
            coverage_error(
                CoverageKind::Overlap,
                Some(k),
                Some(previous_end),
                Some(start),
                detail,
            ),
        );
    }
    if start > previous_end {
        let mut detail = range_label(k);
        detail.push_str(" starts at ");
        push_decimal(&mut detail, start as u128);
        detail.push_str(", after previous end ");
        push_decimal(&mut detail, previous_end as u128);
        return Err(
            coverage_error(CoverageKind::Gap, Some(k), Some(previous_end), Some(start), detail),
        );
    }
    Ok(())
}

fn verify_ranges(ranges: &[(usize, usize)], size: usize) -> (r: Result<(), CoverageError>)
    requires
        ranges@.len() > 0,
    ensures
        match r {
            Ok(_) => check_ranges(int_ranges(ranges@), 0, size as int) == Ok::<
                (),
                CoverageFault,
            >(()),
            Err(e) => check_ranges(int_ranges(ranges@), 0, size as int) == Err::<
                (),
                CoverageFault,
            >(e@),
        },
{
    let mut k: usize = 0;
    let ghost all = int_ranges(ranges@);
    while k < ranges.len()
        invariant
            k <= ranges@.len(),
            all == int_ranges(ranges@),
            check_ranges(all, k as int, size as int) == check_ranges(all, 0, size as int),
        decreases ranges@.len() - k,
    {
        if let Err(e) = verify_range(ranges, k) {
            return Err(e);
        }
        k = k + 1;
    }
    let last: usize = ranges.len() - 1;
    let end: usize = ranges[last].1;
    if end != size {
        let mut detail = "last range ends at ".to_owned();
        push_decimal(&mut detail, end as u128);
        detail.push_str(", expected size ");
        push_decimal(&mut detail, size as u128);
        return Err(
            coverage_error(CoverageKind::BadEnd, Some(last), Some(size), Some(end), detail),
        );
    }
    Ok(())
}

/// Follow the records of `data` past the end of every range but the last.
fn verify_alignment(strategy: &BuiltinFraming, data: &[u8], ranges: &[(usize, usize)]) -> (r: Result<
    (),
    CoverageError,
>)
    requires
        usable(strategy@),
        ranges@.len() > 0,
    ensures
        match r {
            Ok(_) => check_alignment(strategy@, data@, int_ranges(ranges@), 0, 0) == Ok::<
                (),
                CoverageFault,
            >(()),
            Err(e) => check_alignment(strategy@, data@, int_ranges(ranges@), 0, 0) == Err::<
                (),
                CoverageFault,
            >(e@),
        },
{
    let minimum: usize = strategy.minimum_buffer_bytes();
    let most: usize = if data.len() == 0 {
        1
    } else {
        data.len()
    };
    let buffer_len: usize = if minimum < most {
        minimum
    } else {
        most
    };
    let mut buffer: Vec<u8> = vec![0u8; buffer_len];
    let source = SliceSource { data };
    let mut scanner = strategy.scanner(buffer.as_mut_slice());
    let ghost all = int_ranges(ranges@);
    let mut k: usize = 0;
    let mut floor: usize = 0;
    let last: usize = ranges.len() - 1;
    proof {
        assert(scanner.ready(data@));
    }
    while k < last
        invariant
            k <= last,
            last == ranges@.len() - 1,
            all == int_ranges(ranges@),
            source.data == data,
            usable(strategy@),
            floor <= data@.len(),
            scanner.ready(data@),
            scanner.floor() <= floor,
            forall|f: int|
                floor <= f ==> #[trigger] scanner.answer(data@, f) == boundary_past(
                    strategy@,
                    data@,
                    floor as int,
                    f,
                ),
            forall|l: int, f: int|
                floor <= f ==> #[trigger] scanner.later(data@, l, f) == boundary_past(
                    strategy@,
                    data@,
                    l,
                    f,
                ),
            check_alignment(strategy@, data@, all, k as int, floor as int) == check_alignment(
                strategy@,
                data@,
                all,
                0,
                0,
            ),
        decreases data@.len() - floor,
    {
        let end: usize = ranges[k].1;
        proof {
            law_boundary_advances(strategy@, data@, floor as int, floor as int);
        }
        match scanner.boundary_after(&source, floor) {
            Err(error) => {
                let mut detail = "boundary replay failed before range end ".to_owned();
                push_decimal(&mut detail, end as u128);
                detail.push_str(": ");
                detail.push_str(error.message());
                return Err(
                    coverage_error(CoverageKind::Boundary, Some(k), Some(end), None, detail),
                );
            },
            Ok(None) => {
                let mut detail = range_label(k);
                detail.push_str(" end ");
                push_decimal(&mut detail, end as u128);
                detail.push_str(" is past the last record boundary");
                return Err(
                    coverage_error(CoverageKind::Misaligned, Some(k), Some(end), None, detail),
                );
            },
            Ok(Some(boundary)) => {
                floor = boundary;
                if boundary > end {
                    let mut detail = range_label(k);
                    detail.push_str(" end ");
                    push_decimal(&mut detail, end as u128);
                    detail.push_str(" is not a record boundary (next is ");
                    push_decimal(&mut detail, boundary as u128);
                    detail.push_str(")");
                    return Err(
                        coverage_error(
                            CoverageKind::Misaligned,
                            Some(k),
                            Some(end),
                            Some(boundary),
                            detail,
                        ),
                    );
                }
                if boundary == end {
                    k = k + 1;
                }
            },
        }
    }
    Ok(())
}

impl RangePlan {
    /// Check that the ranges cover `data` without gap or overlap, and that every
    /// range but the last ends with a record. Records of a framing that is known
    /// by name only are not followed.
    pub fn verify_coverage(&self, data: &[u8]) -> (r: Result<(), CoverageError>)
        ensures
            match r {
                Ok(_) => coverage(self@, data@) == Ok::<(), CoverageFault>(()),
                Err(e) => coverage(self@, data@) == Err::<(), CoverageFault>(e@),
            },
    {
        let size: usize = data.len();
        if size as u64 != self.source_size {
            let mut detail = "plan covers ".to_owned();
            push_decimal(&mut detail, self.source_size as u128);
            detail.push_str(" bytes but ");
            push_decimal(&mut detail, size as u128);
            detail.push_str(" bytes were supplied");
            let expected = if self.source_size <= usize::MAX as u64 {
                Some(self.source_size as usize)
            } else {
                None
            };
            return Err(
                coverage_error(CoverageKind::SizeMismatch, None, expected, Some(size), detail),
            );
        }
        if self.ranges.is_empty() {
            if size == 0 {
                return Ok(());
            }
            let mut detail = "plan has no ranges for ".to_owned();
            push_decimal(&mut detail, size as u128);
            detail.push_str(" bytes");
            return Err(
                coverage_error(CoverageKind::EmptyPlan, None, Some(size), Some(0), detail),
            );
        }
        if let Err(e) = verify_ranges(self.ranges.as_slice(), size) {
            return Err(e);
        }
        match self.framing.try_as_builtin() {
            Err(error) => {
                let mut detail = "framing descriptor is not a usable builtin: ".to_owned();
                detail.push_str(error.message());
                Err(coverage_error(CoverageKind::InvalidFraming, None, None, None, detail))
            },
            Ok(None) => Ok(()),
            Ok(Some(strategy)) => verify_alignment(&strategy, data, self.ranges.as_slice()),
        }
    }
}

/// The records that follow one another from `floor` on lead to a boundary at
/// `end`.
pub open spec fn leads_to(framing: Framing, data: Seq<u8>, floor: int, end: int) -> bool
    decreases data.len() - floor,
{
    match boundary_past(framing, data, floor, floor) {
        Ok(Some(b)) => if b <= floor || b > data.len() {
            false
        } else {
            b == end || (b < end && leads_to(framing, data, b, end))
        },
        _ => false,
    }
}

proof fn lemma_check_ranges(ranges: Seq<(int, int)>, k: int, size: int)
    requires
        0 <= k <= ranges.len(),
        ranges.len() > 0,
    ensures
        check_ranges(ranges, k, size) is Ok <==> ranges.last().1 == size && forall|i: int|
            k <= i < ranges.len() ==> #[trigger] check_range(ranges, i) is Ok,
    decreases ranges.len() - k,
{
    if k < ranges.len() {
        lemma_check_ranges(ranges, k + 1, size);
        assert(check_ranges(ranges, k, size) is Ok <==> check_range(ranges, k) is Ok
            && check_ranges(ranges, k + 1, size) is Ok);
    }
}

proof fn lemma_check_ranges_tiles(ranges: Seq<(int, int)>, size: int)
    requires
        ranges.len() > 0,
    ensures
        check_ranges(ranges, 0, size) is Ok <==> tiles(ranges, 0, size),
{
    lemma_check_ranges(ranges, 0, size);
    if check_ranges(ranges, 0, size) is Ok {
        assert forall|i: int| 0 <= i < ranges.len() implies (#[trigger] ranges[i]).0
            < ranges[i].1 by {
            assert(check_range(ranges, i) is Ok);
        }
        assert forall|i: int, j: int| 0 <= i && j == i + 1 && j < ranges.len() implies (
        #[trigger] ranges[i]).1 == (#[trigger] ranges[j]).0 by {
            assert(check_range(ranges, j) is Ok);
        }
        assert(check_range(ranges, 0) is Ok);
    }
    if tiles(ranges, 0, size) {
        assert forall|i: int| 0 <= i < ranges.len() implies #[trigger] check_range(
            ranges,
            i,
        ) is Ok by {
            assert(ranges[i].0 < ranges[i].1);
            if i > 0 {
                assert(ranges[i - 1].0 < ranges[i - 1].1);
                assert(ranges[i - 1].1 == ranges[i].0);
            }
        }
    }
}

proof fn lemma_check_alignment(
    framing: Framing,
    data: Seq<u8>,
    ranges: Seq<(int, int)>,
    k: int,
    floor: int,
)
    requires
        tiles(ranges, 0, data.len() as int),
        0 <= k,
    ensures
        check_alignment(framing, data, ranges, k, floor) is Ok <==> forall|i: int|
            k <= i < ranges.len() - 1 ==> leads_to(framing, data, floor, (#[trigger] ranges[i]).1),
    decreases data.len() - floor, ranges.len() - k,
{
    if k < ranges.len() - 1 {
        let end = ranges[k].1;
        assert forall|i: int| k <= i < ranges.len() - 1 implies end <= (
        #[trigger] ranges[i]).1 by {
            lemma_ends_grow(ranges, 0, data.len() as int, k, i);
        }
        assert forall|i: int| k < i < ranges.len() - 1 implies end < (#[trigger] ranges[i]).1 by {
            lemma_ends_grow(ranges, 0, data.len() as int, k, i);
        }
        match boundary_past(framing, data, floor, floor) {
            Ok(Some(b)) => {
                if b <= floor || b > data.len() {
                    assert(!leads_to(framing, data, floor, ranges[k].1));
                } else if b > end {
                    assert(!leads_to(framing, data, floor, ranges[k].1));
                } else if b == end {
                    lemma_check_alignment(framing, data, ranges, k + 1, b);
                    assert forall|i: int| k < i < ranges.len() - 1 implies leads_to(
                        framing,
                        data,
                        floor,
                        (#[trigger] ranges[i]).1,
                    ) == leads_to(framing, data, b, ranges[i].1) by {}
                } else {
                    lemma_check_alignment(framing, data, ranges, k, b);
                    assert forall|i: int| k <= i < ranges.len() - 1 implies leads_to(
                        framing,
                        data,
                        floor,
                        (#[trigger] ranges[i]).1,
                    ) == leads_to(framing, data, b, ranges[i].1) by {}
                }
            },
            _ => {
                assert(!leads_to(framing, data, floor, ranges[k].1));
            },
        }
    }
}

/// In a tiling, later ranges end later.
pub proof fn lemma_ends_grow(ranges: Seq<(int, int)>, from: int, to: int, i: int, j: int)
    requires
        tiles(ranges, from, to),
        0 <= i <= j < ranges.len(),
    ensures
        ranges[i].1 <= ranges[j].1,
        i < j ==> ranges[i].1 < ranges[j].1,
    decreases j - i,
{
    if i < j {
        lemma_ends_grow(ranges, from, to, i, j - 1);
        assert(ranges[j - 1].1 == ranges[j].0);
        assert(ranges[j].0 < ranges[j].1);
    }
}

/// Law: a plan is accepted exactly when the bytes are as many as it says, its
/// ranges cover them without gap or overlap, and the records, followed from the
/// first byte on, lead to the end of every range but the last. A framing that
/// is known by name only is taken at its word; one that cannot be used is
/// refused.
pub proof fn law_coverage_accepts_exactly(plan: Plan, data: Seq<u8>)
    ensures
        coverage(plan, data) is Ok <==> {
            &&& data.len() == plan.source_size
            &&& tiles(plan.ranges, 0, data.len() as int)
            &&& plan.ranges.len() > 0 ==> usable(plan.framing)
            &&& plan.framing is Custom || inner_ends(
                plan.ranges,
                |end: int| leads_to(plan.framing, data, 0, end),
            )
        },
{
    let aligned = |end: int| leads_to(plan.framing, data, 0, end);
    if plan.ranges.len() > 0 && data.len() == plan.source_size {
        lemma_check_ranges_tiles(plan.ranges, data.len() as int);
        if tiles(plan.ranges, 0, data.len() as int) {
            lemma_check_alignment(plan.framing, data, plan.ranges, 0, 0);
            assert(inner_ends(plan.ranges, aligned) <==> forall|i: int|
                0 <= i < plan.ranges.len() - 1 ==> leads_to(
                    plan.framing,
                    data,
                    0,
                    (#[trigger] plan.ranges[i]).1,
                ));
        }
    }
}

/// A framing's boundaries, by a property that they have: from the start or from
/// a boundary on, the framing finds the first of those that follow.
pub open spec fn finds_first(
    framing: Framing,
    data: Seq<u8>,
    boundary: spec_fn(int) -> bool,
) -> bool {
    forall|floor: int, b: int|
        0 <= floor < b && (floor == 0 || boundary(floor)) && #[trigger] boundary(b)
            ==> match #[trigger] boundary_past(framing, data, floor, floor) {
            Ok(Some(m)) => floor < m <= b && m <= data.len() && boundary(m),
            _ => false,
        }
}

proof fn lemma_leads_to(
    framing: Framing,
    data: Seq<u8>,
    boundary: spec_fn(int) -> bool,
    floor: int,
    end: int,
)
    requires
        finds_first(framing, data, boundary),
        0 <= floor < end,
        floor == 0 || boundary(floor),
        boundary(end),
    ensures
        leads_to(framing, data, floor, end),
    decreases end - floor,
{
    match boundary_past(framing, data, floor, floor) {
        Ok(Some(m)) => {
            if m < end {
                lemma_leads_to(framing, data, boundary, m, end);
            }
        },
        _ => {},
    }
}

proof fn lemma_finds_first(framing: Framing, data: Seq<u8>)
    requires
        usable(framing),
        nothing_overlaps(framing, data),
    ensures
        finds_first(framing, data, |b: int| is_boundary(framing, data, b)),
{
    let boundary = |b: int| is_boundary(framing, data, b);
    assert forall|floor: int, b: int|
        0 <= floor < b && (floor == 0 || boundary(floor))
            && #[trigger] boundary(b) implies match #[trigger] boundary_past(
        framing,
        data,
        floor,
        floor,
    ) {
        Ok(Some(m)) => floor < m <= b && m <= data.len() && boundary(m),
        _ => false,
    } by {
        match framing {
            Framing::Delimiter(delimiter) => {
                lemma_first_from_is_first(data, delimiter, floor);
                assert(occurs_at(data, delimiter, b - delimiter.len()));
                if floor > 0 {
                    assert(occurs_at(data, delimiter, floor - delimiter.len()));
                }
            },
            Framing::FixedWidth(width) => {
                lemma_next_multiple(floor, width);
                lemma_later_multiple(floor, width, b);
                vstd::arithmetic::div_mod::lemma_mod_multiples_basic(floor / width + 1, width);
            },
            Framing::LengthPrefixed { prefix_bytes, little_endian, length_includes_prefix } => {
                let from = choose|from: int|
                    0 <= from && #[trigger] prefixed_boundary(
                        data,
                        0,
                        prefix_bytes,
                        little_endian,
                        length_includes_prefix,
                        from,
                    ) == Ok::<Option<int>, SourceError>(Some(b));
                lemma_prefixed_first(
                    data,
                    0,
                    prefix_bytes,
                    little_endian,
                    length_includes_prefix,
                    from,
                    floor,
                    b,
                );
            },
            Framing::Custom(_) => {},
        }
    }
}

/// Law: ranges that cover the bytes and, but for the last, end at boundaries of
/// their framing are accepted. (Where two occurrences of a delimiter overlap,
/// records that are followed from the first byte on may miss the second.)
pub proof fn law_aligned_ranges_are_accepted(plan: Plan, data: Seq<u8>)
    requires
        plan.source_size == data.len(),
        tiles(plan.ranges, 0, data.len() as int),
        usable(plan.framing),
        nothing_overlaps(plan.framing, data),
        plan.framing is Custom || inner_ends(
            plan.ranges,
            |end: int| is_boundary(plan.framing, data, end),
        ),
    ensures
        coverage(plan, data) is Ok,
{
    law_coverage_accepts_exactly(plan, data);
    if !(plan.framing is Custom) {
        lemma_finds_first(plan.framing, data);
        assert forall|i: int| 0 <= i < plan.ranges.len() - 1 implies leads_to(
            plan.framing,
            data,
            0,
            (#[trigger] plan.ranges[i]).1,
        ) by {
            lemma_tiles_ordered(plan.ranges, 0, data.len() as int);
            let boundary = |b: int| is_boundary(plan.framing, data, b);
            assert(boundary(plan.ranges[i].1));
            lemma_leads_to(plan.framing, data, boundary, 0, plan.ranges[i].1);
        }
        assert(inner_ends(plan.ranges, |end: int| leads_to(plan.framing, data, 0, end)));
    }
}

/// Law: the ranges that the planner gives for a built-in framing are accepted
/// over the bytes they were planned for.
pub proof fn law_planned_ranges_are_accepted(
    plan: Plan,
    strategy: BuiltinFraming,
    data: Seq<u8>,
    num_partitions: int,
)
    requires
        num_partitions > 0,
        usable(strategy@),
        nothing_overlaps(strategy@, data),
        strategy_ranges(&strategy, data, num_partitions) == Ok::<Seq<(int, int)>, SourceError>(
            plan.ranges,
        ),
        plan.framing == strategy@,
        plan.source_size == data.len(),
    ensures
        coverage(plan, data) is Ok,
{
    let framing = strategy@;
    let aligned = |end: int| is_boundary(framing, data, end);
    let cut = |last: int, target: int| strategy.boundary(data, last, target);
    assert forall|l: int, t: int| 0 <= l < t < data.len() implies (#[trigger] cut(l, t) matches Ok(
        Some(b),
    ) ==> t < b <= data.len() && aligned(b)) by {
        law_boundary_past_is_first(framing, data, l, t);
    }
    law_framed_partition_covers(data.len() as int, num_partitions, cut, aligned);
    law_aligned_ranges_are_accepted(plan, data);
}

/// Following the records from `floor` on leads to every later record start.
proof fn lemma_starts_are_led_to(framing: Framing, data: Seq<u8>, floor: int, k: int)
    requires
        usable(framing),
        0 <= floor,
    ensures
        record_starts(
            |from: int| boundary_past(framing, data, from, from),
            data.len() as int,
            floor,
        ) matches Ok(starts) ==> 0 <= k < starts.len() ==> starts[k] == floor || starts[k] > floor
            && leads_to(framing, data, floor, starts[k]),
    decreases data.len() - floor,
{
    let cut = |from: int| boundary_past(framing, data, from, from);
    let len = data.len() as int;
    if floor < len {
        law_boundary_advances(framing, data, floor, floor);
        if let Ok(Some(end)) = cut(floor) {
            if end < len {
                lemma_starts_are_led_to(framing, data, end, k - 1);
                if let Ok(starts) = record_starts(cut, len, floor) {
                    let rest = record_starts(cut, len, end)->Ok_0;
                    if 0 < k < starts.len() {
                        assert(starts[k] == rest[k - 1]);
                    }
                }
            }
        }
    }
}

/// Law: the ranges that an index of the bytes gives are accepted over them.
pub proof fn law_indexed_ranges_are_accepted(
    plan: Plan,
    index: Index,
    starts: Seq<int>,
    data: Seq<u8>,
    num_partitions: int,
)
    requires
        usable(plan.framing),
        record_starts(
            |from: int| boundary_past(plan.framing, data, from, from),
            data.len() as int,
            0,
        ) == Ok::<Seq<int>, SourceError>(starts),
        index.source_size == data.len(),
        index.stride > 0,
        index.record_count == starts.len(),
        index.offsets == every_nth(starts, index.stride as int),
        num_partitions > 0,
        index_ranges(index, num_partitions, data.len() as int) == Ok::<Seq<(int, int)>, Seq<char>>(
            plan.ranges,
        ),
        plan.source_size == data.len(),
    ensures
        coverage(plan, data) is Ok,
{
    let cut = |from: int| boundary_past(plan.framing, data, from, from);
    law_indexed_cuts_are_record_starts(cut, starts, index, num_partitions);
    law_coverage_accepts_exactly(plan, data);
    lemma_tiles_ordered(plan.ranges, 0, data.len() as int);
    assert forall|i: int| 0 <= i < plan.ranges.len() - 1 implies leads_to(
        plan.framing,
        data,
        0,
        (#[trigger] plan.ranges[i]).1,
    ) by {
        let end = plan.ranges[i].1;
        let started = |end: int| starts.contains(end);
        assert(started(end));
        let k = choose|k: int| 0 <= k < starts.len() && starts[k] == end;
        lemma_starts_are_led_to(plan.framing, data, 0, k);
    }
    assert(inner_ends(plan.ranges, |end: int| leads_to(plan.framing, data, 0, end)));
}

} // verus!
