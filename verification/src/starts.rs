//! Which record starts a scan finds, and which of them an index keeps.

use crate::error::SourceError;
use crate::framing::{
    boundary_past, is_boundary, law_boundary_past_is_first, law_last_boundary_has_no_say,
    law_next_boundary_is_smallest, next_boundary, nothing_overlaps, usable, Framing,
};
use crate::index::{
    all_inside, check_offsets, every_nth, increasing, lemma_slot, lemma_slot_count, record_starts,
};
use vstd::arithmetic::div_mod::lemma_fundamental_div_mod;
use vstd::prelude::*;

verus! {

/// Law: records start one where the other ends. The first start is where the scan
/// begins; from each start the boundary that follows is the next one; and from
/// the last there is none inside the source.
pub proof fn law_records_start_where_others_end(
    cut: spec_fn(int) -> Result<Option<int>, SourceError>,
    len: int,
    cursor: int,
    starts: Seq<int>,
    k: int,
)
    requires
        0 <= cursor < len,
        record_starts(cut, len, cursor) == Ok::<Seq<int>, SourceError>(starts),
        0 <= k < starts.len(),
    ensures
        starts[0] == cursor,
        k + 1 < starts.len() ==> cut(starts[k]) == Ok::<Option<int>, SourceError>(
            Some(starts[k + 1]),
        ),
        k + 1 == starts.len() ==> match cut(starts[k]) {
            Ok(Some(end)) => end >= len,
            Ok(None) => true,
            Err(_) => false,
        },
    decreases len - cursor,
{
    if let Ok(Some(end)) = cut(cursor) {
        if cursor < end < len {
            let rest = record_starts(cut, len, end)->Ok_0;
            assert(starts == seq![cursor] + rest);
            assert(rest.len() > 0 && rest[0] == end);
            if k > 0 {
                law_records_start_where_others_end(cut, len, end, rest, k - 1);
                assert(starts[k] == rest[k - 1]);
                if k + 1 < starts.len() {
                    assert(starts[k + 1] == rest[k]);
                }
            }
        }
    }
}

proof fn lemma_start_of_boundary(
    framing: Framing,
    data: Seq<u8>,
    floor: int,
    starts: Seq<int>,
    b: int,
) -> (k: int)
    requires
        usable(framing),
        nothing_overlaps(framing, data),
        0 <= floor < b < data.len(),
        floor == 0 || is_boundary(framing, data, floor),
        record_starts(
            |from: int| boundary_past(framing, data, from, from),
            data.len() as int,
            floor,
        ) == Ok::<Seq<int>, SourceError>(starts),
        is_boundary(framing, data, b),
    ensures
        0 <= k < starts.len(),
        starts[k] == b,
    decreases data.len() - floor,
{
    let cut = |from: int| boundary_past(framing, data, from, from);
    let len = data.len() as int;
    law_last_boundary_has_no_say(framing, data, floor, floor);
    law_next_boundary_is_smallest(framing, data, floor);
    law_boundary_past_is_first(framing, data, floor, floor);
    let end = next_boundary(framing, data, floor)->Ok_0->0;
    assert(cut(floor) == Ok::<Option<int>, SourceError>(Some(end)));
    let rest = record_starts(cut, len, end)->Ok_0;
    assert(starts == seq![floor] + rest);
    if end == b {
        assert(rest[0] == b);
        assert(starts[1] == b);
        1
    } else {
        let k = lemma_start_of_boundary(framing, data, end, rest, b);
        assert(starts[k + 1] == b);
        k + 1
    }
}

/// Law: a scan misses no record. Where no two delimiters overlap, every record
/// boundary inside the source is one of the starts that a scan finds.
pub proof fn law_scan_misses_no_record(
    framing: Framing,
    data: Seq<u8>,
    starts: Seq<int>,
    b: int,
) -> (k: int)
    requires
        usable(framing),
        nothing_overlaps(framing, data),
        record_starts(
            |from: int| boundary_past(framing, data, from, from),
            data.len() as int,
            0,
        ) == Ok::<Seq<int>, SourceError>(starts),
        0 < b < data.len(),
        is_boundary(framing, data, b),
    ensures
        0 <= k < starts.len(),
        starts[k] == b,
{
    lemma_start_of_boundary(framing, data, 0, starts, b)
}

/// Law: an index with stride `s` keeps the starts of the records whose number is
/// a multiple of `s`, and no others: slot `k` keeps record `k * s`, and there are
/// as many slots as there are such records.
pub proof fn law_index_keeps_every_stride(starts: Seq<int>, stride: int, k: int)
    requires
        0 < stride,
        forall|i: int| 0 <= i < starts.len() ==> #[trigger] starts[i] >= 0,
        0 <= k,
    ensures
        k < every_nth(starts, stride).len() <==> k * stride < starts.len(),
        k * stride < starts.len() ==> every_nth(starts, stride)[k] == starts[k * stride],
{
    let slots = every_nth(starts, stride).len() as int;
    let n = starts.len() + stride - 1;
    lemma_slot_count(starts, stride);
    lemma_fundamental_div_mod(n, stride);
    if k < slots {
        lemma_slot(starts, stride, k);
    } else {
        assert(k * stride >= starts.len()) by (nonlinear_arith)
            requires
                k >= slots,
                n == stride * slots + n % stride,
                0 <= n % stride < stride,
                n == starts.len() + stride - 1,
                stride > 0,
        ;
    }
}

/// Recorded starts that grow from each to the next grow throughout.
proof fn lemma_increasing(offsets: Seq<nat>, i: int, j: int)
    requires
        increasing(offsets),
        0 <= i < j < offsets.len(),
    ensures
        offsets[i] < offsets[j],
    decreases j - i,
{
    assert(offsets[j - 1] < offsets[j]);
    if i < j - 1 {
        lemma_increasing(offsets, i, j - 1);
    }
}

/// Law: the offsets of an index are accepted exactly when they begin at 0 where
/// there are records, grow throughout, and lie inside the source (in an empty
/// source only 0 does).
pub proof fn law_offsets_accepted_exactly(record_count: nat, offsets: Seq<nat>, size: nat)
    ensures
        check_offsets(record_count, offsets, size) is Ok <==> {
            &&& record_count > 0 ==> offsets.len() > 0 && offsets[0] == 0
            &&& forall|i: int, j: int|
                0 <= i < j < offsets.len() ==> #[trigger] offsets[i] < #[trigger] offsets[j]
            &&& forall|i: int|
                0 <= i < offsets.len() ==> #[trigger] offsets[i] < size || offsets[i] == 0 && size
                    == 0
        },
{
    if increasing(offsets) {
        assert forall|i: int, j: int| 0 <= i < j < offsets.len() implies #[trigger] offsets[i]
            < #[trigger] offsets[j] by {
            lemma_increasing(offsets, i, j);
        }
    }
    if check_offsets(record_count, offsets, size) is Ok {
        assert(all_inside(offsets, size));
    } else if forall|i: int|
        0 <= i < offsets.len() ==> #[trigger] offsets[i] < size || offsets[i] == 0 && size == 0 {
        assert(all_inside(offsets, size));
    }
}

} // verus!
