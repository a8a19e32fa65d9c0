//! Ranges as lines of text: fields in decimal, separated by tabs.

use crate::chunker::MmapChunker;
use crate::logical::{
    assigns, plan_logical_partitions, planning_overflows, range_numbers, source_bytes,
    worker_ranges, WorkerAssignment, TARGET_OVERFLOW,
};
use crate::ranges::{int_ranges, lemma_tiles_ordered, partition};
use crate::scanner::{
    cut_at_record, find_partition_boundaries, find_partition_boundaries_pattern,
    law_slice_partition_covers,
};
use crate::text::{dec_text, push_decimal};
use vstd::prelude::*;

verus! {

/// Fields in decimal with a tab after each but the last.
pub open spec fn fields(numbers: Seq<int>) -> Seq<char>
    decreases numbers.len(),
{
    if numbers.len() == 0 {
        Seq::empty()
    } else if numbers.len() == 1 {
        dec_text(numbers[0] as nat)
    } else {
        fields(numbers.drop_last()).push('\t') + dec_text(numbers.last() as nat)
    }
}

/// The line of one partition: position, start, end and length.
pub open spec fn range_row(index: int, range: (int, int)) -> Seq<char> {
    fields(seq![index, range.0, range.1, range.1 - range.0]).push('\n')
}

/// The lines of the first `k` partitions.
pub open spec fn range_rows(ranges: Seq<(int, int)>, k: int) -> Seq<char>
    decreases k,
{
    if k <= 0 {
        Seq::empty()
    } else {
        range_rows(ranges, k - 1) + range_row(k - 1, ranges[k - 1])
    }
}

/// The lines asked for: all of them, or that of one worker, which has none
/// where there are fewer partitions.
pub open spec fn partition_text(ranges: Seq<(int, int)>, worker: Option<usize>) -> Seq<char> {
    match worker {
        Some(w) => if w < ranges.len() {
            range_row(w as int, ranges[w as int])
        } else {
            Seq::empty()
        },
        None => range_rows(ranges, ranges.len() as int),
    }
}

/// The line of one source range of a worker.
pub open spec fn source_row(worker: int, range: (int, int, int, int)) -> Seq<char> {
    fields(seq![worker, range.0, range.1, range.2, range.3]).push('\n')
}

/// The lines of the first `k` ranges of a worker.
pub open spec fn worker_rows(worker: int, ranges: Seq<(int, int, int, int)>, k: int) -> Seq<char>
    decreases k,
{
    if k <= 0 {
        Seq::empty()
    } else {
        worker_rows(worker, ranges, k - 1) + source_row(worker, ranges[k - 1])
    }
}

/// The lines of the first `k` workers.
pub open spec fn assignment_rows(ranges: Seq<Seq<(int, int, int, int)>>, k: int) -> Seq<char>
    decreases k,
{
    if k <= 0 {
        Seq::empty()
    } else {
        assignment_rows(ranges, k - 1) + worker_rows(
            k - 1,
            ranges[k - 1],
            ranges[k - 1].len() as int,
        )
    }
}

/// Law: the line of a partition has its position, its start, its end and the
/// number of its bytes, in decimal and with a tab between two, and ends with a
/// line feed.
pub proof fn law_partition_line(index: int, range: (int, int))
    ensures
        range_row(index, range) == dec_text(index as nat) + seq!['\t'] + dec_text(range.0 as nat)
            + seq!['\t'] + dec_text(range.1 as nat) + seq!['\t'] + dec_text(
            (range.1 - range.0) as nat,
        ) + seq!['\n'],
{
    let all = seq![index, range.0, range.1, range.1 - range.0];
    assert(all.drop_last() =~= seq![index, range.0, range.1]);
    assert(all.drop_last().drop_last() =~= seq![index, range.0]);
    assert(all.drop_last().drop_last().drop_last() =~= seq![index]);
    reveal_with_fuel(fields, 5);
    assert(range_row(index, range) =~= dec_text(index as nat) + seq!['\t'] + dec_text(
        range.0 as nat,
    ) + seq!['\t'] + dec_text(range.1 as nat) + seq!['\t'] + dec_text(
        (range.1 - range.0) as nat,
    ) + seq!['\n']);
}

/// The lines of the first partitions do not depend on the later ones.
proof fn lemma_rows_of_front(ranges: Seq<(int, int)>, range: (int, int), k: int)
    requires
        0 <= k <= ranges.len(),
    ensures
        range_rows(ranges.push(range), k) == range_rows(ranges, k),
    decreases k,
{
    if k > 0 {
        lemma_rows_of_front(ranges, range, k - 1);
        assert(ranges.push(range)[k - 1] == ranges[k - 1]);
    }
}

/// Law: printing all partitions prints the line of each worker in turn: with one
/// partition more there is one line more, that of the last worker. Without
/// partitions nothing is printed, and a worker without a partition prints
/// nothing.
pub proof fn law_every_worker_has_a_line(ranges: Seq<(int, int)>, range: (int, int), worker: usize)
    ensures
        partition_text(Seq::empty(), None) == Seq::<char>::empty(),
        worker == ranges.len() ==> partition_text(ranges.push(range), None) == partition_text(
            ranges,
            None,
        ) + partition_text(ranges.push(range), Some(worker)),
        worker >= ranges.len() ==> partition_text(ranges, Some(worker)) == Seq::<char>::empty(),
        worker < ranges.len() ==> partition_text(ranges, Some(worker)) == range_row(
            worker as int,
            ranges[worker as int],
        ),
{
    lemma_rows_of_front(ranges, range, ranges.len() as int);
}

/// Law: the line of a source range has the worker, the source, the start, the end
/// and the number of bytes, in decimal and with a tab between two, and ends with
/// a line feed.
pub proof fn law_source_line(worker: int, range: (int, int, int, int))
    ensures
        source_row(worker, range) == dec_text(worker as nat) + seq!['\t'] + dec_text(
            range.0 as nat,
        ) + seq!['\t'] + dec_text(range.1 as nat) + seq!['\t'] + dec_text(range.2 as nat)
            + seq!['\t'] + dec_text(range.3 as nat) + seq!['\n'],
{
    let all = seq![worker, range.0, range.1, range.2, range.3];
    assert(all.drop_last() =~= seq![worker, range.0, range.1, range.2]);
    assert(all.drop_last().drop_last() =~= seq![worker, range.0, range.1]);
    assert(all.drop_last().drop_last().drop_last() =~= seq![worker, range.0]);
    assert(all.drop_last().drop_last().drop_last().drop_last() =~= seq![worker]);
    reveal_with_fuel(fields, 6);
    assert(source_row(worker, range) =~= dec_text(worker as nat) + seq!['\t'] + dec_text(
        range.0 as nat,
    ) + seq!['\t'] + dec_text(range.1 as nat) + seq!['\t'] + dec_text(range.2 as nat) + seq![
        '\t',
    ] + dec_text(range.3 as nat) + seq!['\n']);
}

proof fn lemma_rows_of_front_ranges(
    worker: int,
    ranges: Seq<(int, int, int, int)>,
    range: (int, int, int, int),
    k: int,
)
    requires
        0 <= k <= ranges.len(),
    ensures
        worker_rows(worker, ranges.push(range), k) == worker_rows(worker, ranges, k),
    decreases k,
{
    if k > 0 {
        lemma_rows_of_front_ranges(worker, ranges, range, k - 1);
        assert(ranges.push(range)[k - 1] == ranges[k - 1]);
    }
}

proof fn lemma_rows_of_front_workers(
    all: Seq<Seq<(int, int, int, int)>>,
    ranges: Seq<(int, int, int, int)>,
    k: int,
)
    requires
        0 <= k <= all.len(),
    ensures
        assignment_rows(all.push(ranges), k) == assignment_rows(all, k),
    decreases k,
{
    if k > 0 {
        lemma_rows_of_front_workers(all, ranges, k - 1);
        assert(all.push(ranges)[k - 1] == all[k - 1]);
    }
}

/// Law: the lines of a dataset are those of its workers in turn, and the lines of
/// a worker those of its ranges in turn: with one worker more, or one range more,
/// the lines of it come last.
pub proof fn law_every_source_range_has_a_line(
    all: Seq<Seq<(int, int, int, int)>>,
    ranges: Seq<(int, int, int, int)>,
    range: (int, int, int, int),
    worker: int,
)
    ensures
        assignment_rows(Seq::empty(), 0) == Seq::<char>::empty(),
        assignment_rows(all.push(ranges), all.len() as int + 1) == assignment_rows(all, all.len() as int)
            + worker_rows(all.len() as int, ranges, ranges.len() as int),
        worker_rows(worker, Seq::empty(), 0) == Seq::<char>::empty(),
        worker_rows(worker, ranges.push(range), ranges.len() as int + 1) == worker_rows(
            worker,
            ranges,
            ranges.len() as int,
        ) + source_row(worker, range),
{
    lemma_rows_of_front_workers(all, ranges, all.len() as int);
    lemma_rows_of_front_ranges(worker, ranges, range, ranges.len() as int);
}

/// Executable numbers as mathematical ones.
spec fn numbers_of(numbers: Seq<usize>) -> Seq<int> {
    numbers.map_values(|n: usize| n as int)
}

/// Append numbers as the fields of a line.
fn push_row(out: &mut String, numbers: &[usize])
    requires
        numbers@.len() > 0,
    ensures
        final(out)@ == old(out)@ + fields(numbers_of(numbers@)).push('\n'),
{
    let ghost all = numbers_of(numbers@);
    push_decimal(out, numbers[0] as u128);
    proof {
        assert(all.take(1)[0] == numbers@[0]);
        assert(all.take(1).len() == 1);
    }
    let mut i: usize = 1;
    while i < numbers.len()
        invariant
            1 <= i <= numbers@.len(),
            all == numbers_of(numbers@),
            out@ == old(out)@ + fields(all.take(i as int)),
        decreases numbers@.len() - i,
    {
        out.push('\t');
        push_decimal(out, numbers[i] as u128);
        proof {
            let longer = all.take(i + 1);
            assert(longer.drop_last() =~= all.take(i as int));
            assert(longer.last() == numbers@[i as int]);
            assert(out@ =~= old(out)@ + fields(longer));
        }
        i = i + 1;
    }
    out.push('\n');
    proof {
        assert(all.take(i as int) =~= all);
        assert(out@ =~= old(out)@ + fields(all).push('\n'));
    }
}

/// Append the line of one partition.
fn push_range_row(out: &mut String, index: usize, range: (usize, usize))
    requires
        range.0 <= range.1,
    ensures
        final(out)@ == old(out)@ + range_row(index as int, (range.0 as int, range.1 as int)),
{
    let numbers: [usize; 4] = [index, range.0, range.1, range.1 - range.0];
    push_row(out, numbers.as_slice());
    proof {
        assert(numbers_of(numbers@) =~= seq![
            index as int,
            range.0 as int,
            range.1 as int,
            range.1 - range.0,
        ]);
    }
}

/// The lines of the partitions, or of the one that a worker takes.
pub fn emit_ranges(ranges: &[(usize, usize)], worker: Option<usize>) -> (out: String)
    requires
        forall|i: int| 0 <= i < ranges@.len() ==> (#[trigger] ranges@[i]).0 <= ranges@[i].1,
    ensures
        out@ == partition_text(int_ranges(ranges@), worker),
{
    let ghost all = int_ranges(ranges@);
    let mut out = String::new();
    match worker {
        Some(w) => {
            if w < ranges.len() {
                push_range_row(&mut out, w, ranges[w]);
                assert(out@ =~= range_row(w as int, all[w as int]));
            }
        },
        None => {
            let mut i: usize = 0;
            while i < ranges.len()
                invariant
                    i <= ranges@.len(),
                    all == int_ranges(ranges@),
                    forall|j: int|
                        0 <= j < ranges@.len() ==> (#[trigger] ranges@[j]).0 <= ranges@[j].1,
                    out@ == range_rows(all, i as int),
                decreases ranges@.len() - i,
            {
                push_range_row(&mut out, i, ranges[i]);
                assert(all[i as int] == (ranges@[i as int].0 as int, ranges@[i as int].1 as int));
                i = i + 1;
            }
        },
    }
    out
}

/// Plan mapped bytes and print the lines asked for.
pub fn emit_partitions_for_delimiter(
    data: &[u8],
    parts: usize,
    delimiter: &[u8],
    worker: Option<usize>,
) -> (out: String)
    requires
        parts > 0,
        delimiter@.len() > 0,
    ensures
        out@ == partition_text(
            partition(data@.len() as int, parts as int, cut_at_record(data@, delimiter@)),
            worker,
        ),
{
    let ranges: Vec<(usize, usize)> = if delimiter.len() == 1 {
        assert(delimiter@ =~= seq![delimiter@[0]]);
        find_partition_boundaries(data, parts, delimiter[0])
    } else {
        find_partition_boundaries_pattern(data, parts, delimiter)
    };
    proof {
        law_slice_partition_covers(data@, delimiter@, parts as int);
        let all = int_ranges(ranges@);
        lemma_tiles_ordered(all, 0, data@.len() as int);
        assert forall|i: int| 0 <= i < ranges@.len() implies (#[trigger] ranges@[i]).0
            <= ranges@[i].1 by {
            assert(all[i].0 < all[i].1);
        }
    }
    emit_ranges(ranges.as_slice(), worker)
}

/// Append the lines of one worker.
fn push_worker_rows(out: &mut String, assignment: &WorkerAssignment)
    ensures
        final(out)@ == old(out)@ + worker_rows(
            assignment.worker_index as int,
            range_numbers(assignment.ranges@),
            assignment.ranges@.len() as int,
        ),
{
    let ghost worker = assignment.worker_index as int;
    let ghost all = range_numbers(assignment.ranges@);
    let mut i: usize = 0;
    proof {
        assert(out@ =~= old(out)@ + worker_rows(worker, all, 0));
    }
    while i < assignment.ranges.len()
        invariant
            i <= assignment.ranges@.len(),
            worker == assignment.worker_index,
            all == range_numbers(assignment.ranges@),
            out@ == old(out)@ + worker_rows(worker, all, i as int),
        decreases assignment.ranges@.len() - i,
    {
        let range = assignment.ranges[i];
        let numbers: [usize; 5] = [
            assignment.worker_index,
            range.source_index,
            range.start,
            range.end_exclusive,
            range.length,
        ];
        push_row(out, numbers.as_slice());
        proof {
            let r = all[i as int];
            assert(r == range.numbers());
            assert(numbers_of(numbers@) =~= seq![worker, r.0, r.1, r.2, r.3]);
            assert(out@ =~= old(out)@ + worker_rows(worker, all, i + 1));
        }
        i = i + 1;
    }
}

/// Plan several sources and print the lines of all workers, by worker and then
/// by source.
pub fn emit_file_partitions(sources: &[MmapChunker], parts: usize, delimiter: u8) -> (r: Result<
    String,
    String,
>)
    ensures
        match r {
            Ok(out) => {
                let ranges = worker_ranges(source_bytes(sources@), parts as int, delimiter);
                &&& !planning_overflows(source_bytes(sources@), parts as int, delimiter)
                &&& out@ == assignment_rows(ranges, ranges.len() as int)
            },
            Err(message) => {
                &&& planning_overflows(source_bytes(sources@), parts as int, delimiter)
                &&& message@ == TARGET_OVERFLOW@
            },
        },
{
    let ghost ranges = worker_ranges(source_bytes(sources@), parts as int, delimiter);
    let assignments = match plan_logical_partitions(sources, parts, delimiter) {
        Ok(assignments) => assignments,
        Err(message) => {
            return Err(message);
        },
    };
    let mut out = String::new();
    let mut w: usize = 0;
    while w < assignments.len()
        invariant
            w <= assignments@.len(),
            assigns(assignments@, ranges),
            out@ == assignment_rows(ranges, w as int),
        decreases assignments@.len() - w,
    {
        push_worker_rows(&mut out, &assignments[w]);
        proof {
            assert(range_numbers(assignments@[w as int].ranges@).len()
                == assignments@[w as int].ranges@.len());
        }
        w = w + 1;
    }
    Ok(out)
}

} // verus!
