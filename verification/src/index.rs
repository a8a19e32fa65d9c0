//! Sparse record indexes.
//!
//! An index holds every `stride`-th record start of one file, so that later
//! plans need not look for records again.

use crate::document::{doc_items, doc_members, rendered, Doc, Layout, Style};
use crate::error::SourceError;
use crate::framing::{BoundaryScanner, Framing, FramingDescriptor, FramingStrategy};
use crate::identity::{FileIdentity, Identity};
use crate::json::{
    document, fault_position, item_values, json_error_text, lookup, unsigned_of, Json, JsonValue,
};
use crate::manifest::{
    array_doc, framing_doc, framing_members, named, object_doc, program_doc, program_members,
    source_doc, source_members, text_doc,
};
use crate::ranges::{
    inner_ends, int_offsets, int_ranges, lemma_ideal_target, lemma_tiles_cons, prepend,
    ranges_between, ranges_from_boundaries, tiles,
};
use crate::reader::{
    file_identity_from_json, framing_descriptor_from_json, framing_of, identity_of, number_member,
    str_member, text_member,
};
use crate::source::ByteSource;
use crate::text::{dec_text, push_decimal, same_text};
use vstd::prelude::*;

verus! {

/// Name of the index schema.
pub const INDEX_SCHEMA: &'static str = "mmap-chunker-index";

/// Version of the index schema.
pub const INDEX_SCHEMA_VERSION: u32 = 1;

/// Every `stride`-th record start of one file.
#[derive(Debug, Clone, PartialEq, Eq)]
pub struct RecordIndex {
    /// Where the file was when it was indexed.
    pub source_path: String,
    /// Size of the file in bytes.
    pub source_size: u64,
    /// Identity of the file, before indexing and after it.
    pub identity: FileIdentity,
    /// What a record is.
    pub framing: FramingDescriptor,
    /// Every `stride`-th record start is held.
    pub stride: u64,
    /// Number of records.
    pub record_count: u64,
    /// The starts of the records `0`, `stride`, `2 * stride` and so on.
    pub offsets: Vec<u64>,
}

/// An index, as mathematical data.
#[verifier::ext_equal]
pub struct Index {
    pub source_path: Seq<char>,
    pub source_size: nat,
    pub identity: Identity,
    pub framing: Framing,
    pub stride: nat,
    pub record_count: nat,
    pub offsets: Seq<nat>,
}

/// Offsets as mathematical integers.
pub open spec fn nat_offsets(offsets: Seq<u64>) -> Seq<nat> {
    offsets.map_values(|x: u64| x as nat)
}

impl View for RecordIndex {
    type V = Index;

    open spec fn view(&self) -> Index {
        Index {
            source_path: self.source_path@,
            source_size: self.source_size as nat,
            identity: self.identity@,
            framing: self.framing@,
            stride: self.stride as nat,
            record_count: self.record_count as nat,
            offsets: nat_offsets(self.offsets@),
        }
    }
}

/// An unusable index.
#[derive(Debug, Clone, PartialEq, Eq)]
pub struct IndexError {
    /// What is wrong with it.
    pub message: String,
}

impl IndexError {
    /// What is wrong with it.
    pub fn to_string(&self) -> (r: String)
        ensures
            r@ == self.message@,
    {
        self.message.clone()
    }
}

/// The starts of the records from `cursor` on, in `len` bytes.
pub open spec fn record_starts(
    cut: spec_fn(int) -> Result<Option<int>, SourceError>,
    len: int,
    cursor: int,
) -> Result<Seq<int>, SourceError>
    decreases len - cursor,
{
    if cursor >= len {
        Ok(Seq::empty())
    } else {
        match cut(cursor) {
            Err(e) => Err(e),
            Ok(None) => Ok(seq![cursor]),
            Ok(Some(end)) => if end <= cursor {
                Err(SourceError::BoundaryDidNotAdvance)
            } else if end >= len {
                Ok(seq![cursor])
            } else {
                prepend(seq![cursor], record_starts(cut, len, end))
            },
        }
    }
}

/// Every `stride`-th of the starts, the first one included.
pub open spec fn every_nth(starts: Seq<int>, stride: int) -> Seq<nat>
    decreases starts.len(),
{
    if starts.len() == 0 {
        Seq::empty()
    } else if (starts.len() - 1) % stride == 0 {
        every_nth(starts.drop_last(), stride).push(starts.last() as nat)
    } else {
        every_nth(starts.drop_last(), stride)
    }
}

/// Count the records of a source and collect every `stride`-th record start.
pub fn scan_record_starts<S: ByteSource, F: FramingStrategy>(
    source: &S,
    strategy: &F,
    stride: u64,
    scan_buffer_bytes: usize,
) -> (r: Result<(u64, Vec<u64>), SourceError>)
    requires
        strategy.valid(),
    ensures
        stride == 0 ==> r == Err::<(u64, Vec<u64>), SourceError>(SourceError::ZeroStride),
        stride > 0 ==> match r {
            Ok((count, offsets)) => {
                let starts = record_starts(
                    |from: int| strategy.boundary(source.bytes(), from, from),
                    source.bytes().len() as int,
                    0,
                );
                &&& starts is Ok
                &&& count == starts->Ok_0.len()
                &&& nat_offsets(offsets@) == every_nth(starts->Ok_0, stride as int)
            },
            Err(e) => record_starts(
                |from: int| strategy.boundary(source.bytes(), from, from),
                source.bytes().len() as int,
                0,
            ) == Err::<Seq<int>, SourceError>(e) || source.read_fails(e),
        },
{
    if stride == 0 {
        return Err(SourceError::ZeroStride);
    }
    let file_len: usize = source.len();
    let mut offsets: Vec<u64> = Vec::new();
    if file_len == 0 {
        proof {
            assert(nat_offsets(offsets@) =~= Seq::empty());
        }
        return Ok((0, offsets));
    }
    let needed: usize = strategy.minimum_buffer_bytes();
    let buffer_len: usize = if scan_buffer_bytes < needed {
        needed
    } else {
        scan_buffer_bytes
    };
    let mut buffer: Vec<u8> = vec![0u8; if buffer_len == 0 { 1 } else { buffer_len }];
    let ghost bytes = source.bytes();
    let ghost cut = |from: int| strategy.boundary(bytes, from, from);
    let mut scanner = strategy.scanner(buffer.as_mut_slice());
    let mut cursor: usize = 0;
    let mut count: u64 = 0;
    let ghost whole = record_starts(cut, file_len as int, 0);
    let ghost mut done: Seq<int> = Seq::empty();
    proof {
        assert(scanner.ready(bytes));
        assert(nat_offsets(offsets@) =~= Seq::empty());
        assert(prepend(done, whole) == whole) by {
            if let Ok(points) = whole {
                assert(done + points =~= points);
            }
        }
    }
    loop
        invariant
            stride > 0,
            bytes == source.bytes(),
            file_len == bytes.len(),
            cursor < file_len,
            count == done.len(),
            count <= cursor,
            scanner.ready(bytes),
            scanner.floor() <= cursor,
            cut == (|from: int| strategy.boundary(bytes, from, from)),
            whole == record_starts(cut, file_len as int, 0),
            forall|f: int|
                cursor <= f ==> #[trigger] scanner.answer(bytes, f) == strategy.boundary(
                    bytes,
                    cursor as int,
                    f,
                ),
            forall|l: int, f: int|
                cursor <= f ==> #[trigger] scanner.later(bytes, l, f) == strategy.boundary(
                    bytes,
                    l,
                    f,
                ),
            prepend(done, record_starts(cut, file_len as int, cursor as int)) == whole,
            nat_offsets(offsets@) == every_nth(done, stride as int),
        decreases file_len - cursor,
    {
        let ghost before = offsets@;
        if count % stride == 0 {
            offsets.push(cursor as u64);
        }
        let ghost more = done.push(cursor as int);
        proof {
            assert(more.drop_last() =~= done);
            if count % stride == 0 {
                assert(nat_offsets(offsets@) =~= nat_offsets(before).push(cursor as nat));
            }
            assert(nat_offsets(offsets@) == every_nth(more, stride as int));
            assert(done + seq![cursor as int] =~= more);
        }
        match scanner.boundary_after(source, cursor) {
            Ok(Some(end)) => {
                count = count + 1;
                if end >= file_len {
                    return Ok((count, offsets));
                }
                proof {
                    let rest = record_starts(cut, file_len as int, end as int);
                    if let Ok(points) = rest {
                        assert(done + (seq![cursor as int] + points) =~= more + points);
                    }
                    done = more;
                }
                cursor = end;
            },
            Ok(None) => {
                count = count + 1;
                return Ok((count, offsets));
            },
            Err(e) => {
                return Err(e);
            },
        }
    }
}

/// Seal a scanned index with the identity of the source, which must be the same
/// before the scan and after it.
pub fn seal_index(
    source_path: String,
    before: FileIdentity,
    after: &FileIdentity,
    framing: FramingDescriptor,
    stride: u64,
    record_count: u64,
    offsets: Vec<u64>,
) -> (r: Result<RecordIndex, SourceError>)
    ensures
        match r {
            Ok(index) => stride > 0 && before@ == after@ && index@ == (Index {
                source_path: source_path@,
                source_size: before@.size,
                identity: before@,
                framing: framing@,
                stride: stride as nat,
                record_count: record_count as nat,
                offsets: nat_offsets(offsets@),
            }),
            Err(e) => if stride == 0 {
                e == SourceError::ZeroStride
            } else {
                before@ != after@ && e == SourceError::ChangedWhileIndexing
            },
        },
{
    if stride == 0 {
        return Err(SourceError::ZeroStride);
    }
    if !before.same(after) {
        return Err(SourceError::ChangedWhileIndexing);
    }
    Ok(
        RecordIndex {
            source_path,
            source_size: before.size,
            identity: before,
            framing,
            stride,
            record_count,
            offsets,
        },
    )
}

/// The offsets grow strictly.
pub open spec fn increasing(offsets: Seq<nat>) -> bool {
    forall|i: int, j: int|
        0 <= i && j == i + 1 && j < offsets.len() ==> #[trigger] offsets[i] < #[trigger] offsets[j]
}

/// No offset lies outside a source of `size` bytes; in an empty one only 0 lies
/// inside.
pub open spec fn all_inside(offsets: Seq<nat>, size: nat) -> bool {
    forall|i: int|
        0 <= i < offsets.len() ==> #[trigger] offsets[i] < (if size == 0 {
            1
        } else {
            size
        })
}

/// What is wrong with the offsets of an index, if anything is.
pub open spec fn check_offsets(record_count: nat, offsets: Seq<nat>, size: nat) -> Result<
    (),
    Seq<char>,
> {
    if record_count > 0 && !(offsets.len() > 0 && offsets[0] == 0) {
        Err("index offsets must start at 0"@)
    } else if !increasing(offsets) {
        Err("index offsets must be strictly increasing"@)
    } else if !all_inside(offsets, size) {
        Err("index offset is outside the source"@)
    } else {
        Ok(())
    }
}

fn index_error(message: &str) -> (r: IndexError)
    ensures
        r.message@ == message@,
{
    IndexError { message: message.to_owned() }
}

fn verify_offsets(record_count: u64, offsets: &Vec<u64>, size: u64) -> (r: Result<(), IndexError>)
    ensures
        match r {
            Ok(_) => check_offsets(
                record_count as nat,
                nat_offsets(offsets@),
                size as nat,
            ) is Ok,
            Err(e) => check_offsets(record_count as nat, nat_offsets(offsets@), size as nat) == Err::<
                (),
                Seq<char>,
            >(e.message@),
        },
{
    let ghost values = nat_offsets(offsets@);
    if record_count > 0 && (offsets.len() == 0 || offsets[0] != 0) {
        return Err(index_error("index offsets must start at 0"));
    }
    let mut i: usize = 1;
    while i < offsets.len()
        invariant
            1 <= i,
            values == nat_offsets(offsets@),
            record_count > 0 ==> offsets@.len() > 0 && offsets@[0] == 0,
            forall|a: int, b: int|
                0 <= a && b == a + 1 && b < i && b < values.len() ==> #[trigger] values[a]
                    < #[trigger] values[b],
        decreases offsets@.len() - i,
    {
        if offsets[i - 1] >= offsets[i] {
            proof {
                assert(values[i - 1] == offsets@[i - 1] && values[i as int] == offsets@[i as int]);
                assert(!increasing(values));
            }
            return Err(index_error("index offsets must be strictly increasing"));
        }
        i = i + 1;
    }
    let limit: u64 = if size == 0 {
        1
    } else {
        size
    };
    let mut k: usize = 0;
    while k < offsets.len()
        invariant
            k <= offsets@.len(),
            values == nat_offsets(offsets@),
            record_count > 0 ==> offsets@.len() > 0 && offsets@[0] == 0,
            increasing(values),
            limit == (if size == 0 {
                1
            } else {
                size
            }),
            forall|j: int| 0 <= j < k ==> #[trigger] values[j] < limit,
        decreases offsets@.len() - k,
    {
        if offsets[k] >= limit {
            proof {
                assert(values[k as int] == offsets@[k as int]);
            }
            return Err(index_error("index offset is outside the source"));
        }
        k = k + 1;
    }
    Ok(())
}

/// The recorded start nearest to record `record`, by the number of records.
pub open spec fn nearest_slot(record: int, stride: int, slots: int) -> int {
    let slot = (record + stride / 2) / stride;
    if slot < slots {
        slot
    } else {
        slots - 1
    }
}

/// The cut points for parts `i..n`: the recorded starts nearest to an even share
/// of the records, where they lie inside the source and past the cut before.
pub open spec fn index_cuts(index: Index, n: int, i: int, last: int) -> Seq<int>
    decreases n - i,
{
    if i >= n {
        Seq::empty()
    } else {
        let record = (index.record_count * i) / n;
        let offset = index.offsets[nearest_slot(
            record,
            index.stride as int,
            index.offsets.len() as int,
        )] as int;
        if offset <= last || offset >= index.source_size {
            index_cuts(index, n, i + 1, last)
        } else {
            seq![offset] + index_cuts(index, n, i + 1, offset)
        }
    }
}

/// The ranges that an index gives for a file of `file_len` bytes.
pub open spec fn index_ranges(index: Index, num_partitions: int, file_len: int) -> Result<
    Seq<(int, int)>,
    Seq<char>,
> {
    if index.stride == 0 {
        Err("index stride must be > 0"@)
    } else if file_len != index.source_size {
        Err(
            "file size "@ + dec_text(file_len as nat) + " does not match indexed size "@
                + dec_text(index.source_size),
        )
    } else {
        match check_offsets(index.record_count, index.offsets, index.source_size) {
            Err(e) => Err(e),
            Ok(_) => if file_len == 0 || num_partitions == 0 || index.record_count == 0 {
                Ok(Seq::empty())
            } else {
                Ok(
                    ranges_between(
                        file_len,
                        0,
                        index_cuts(
                            index,
                            if num_partitions < file_len {
                                num_partitions
                            } else {
                                file_len
                            },
                            1,
                            0,
                        ),
                    ),
                )
            },
        }
    }
}

/// The recorded start to cut at for part `i` of `n`.
fn cut_offset(index: &RecordIndex, i: usize, n: usize) -> (r: u64)
    requires
        0 < i < n,
        index.stride > 0,
        index.offsets@.len() > 0,
    ensures
        r == index@.offsets[nearest_slot(
            (index@.record_count * i) / (n as int),
            index@.stride as int,
            index@.offsets.len() as int,
        )],
{
    proof {
        assert((index.record_count as u128) * (i as u128) <= 0xffff_ffff_ffff_ffffu128
            * 0xffff_ffff_ffff_ffffu128) by (nonlinear_arith)
            requires
                index.record_count as u128 <= 0xffff_ffff_ffff_ffffu128,
                i as u128 <= 0xffff_ffff_ffff_ffffu128,
        ;
        if index.record_count > 0 {
            lemma_ideal_target(index.record_count as int, n as int, i as int);
        } else {
            assert((index.record_count as int) * (i as int) == 0) by (nonlinear_arith)
                requires
                    index.record_count == 0,
            ;
            vstd::arithmetic::div_mod::lemma_div_basics(n as int);
        }
        assert((index.record_count as u128) * (i as u128) == (index.record_count as int) * (
        i as int));
    }
    let record: u128 = (index.record_count as u128) * (i as u128) / (n as u128);
    let stride: u128 = index.stride as u128;
    let slot: u128 = (record + stride / 2) / stride;
    let slots: u128 = index.offsets.len() as u128;
    let at: usize = if slot < slots {
        slot as usize
    } else {
        index.offsets.len() - 1
    };
    proof {
        assert(slot >= 0) by (nonlinear_arith)
            requires
                slot == (record + stride / 2) / (stride as int),
                record >= 0,
                stride > 0,
        ;
    }
    index.offsets[at]
}

/// Partition boundaries from an index, without looking at the source.
///
/// Cut `i` of `num_partitions` goes to record `record_count * i /
/// num_partitions`, rounded to the nearest recorded start.
pub fn plan_partition_boundaries_from_index(
    index: &RecordIndex,
    num_partitions: usize,
    file_len: usize,
) -> (r: Result<Vec<(usize, usize)>, IndexError>)
    ensures
        match r {
            Ok(ranges) => index_ranges(index@, num_partitions as int, file_len as int) == Ok::<
                Seq<(int, int)>,
                Seq<char>,
            >(int_ranges(ranges@)),
            Err(e) => index_ranges(index@, num_partitions as int, file_len as int) == Err::<
                Seq<(int, int)>,
                Seq<char>,
            >(e.message@),
        },
{
    if index.stride == 0 {
        return Err(index_error("index stride must be > 0"));
    }
    if file_len as u64 != index.source_size {
        let mut message = "file size ".to_owned();
        push_decimal(&mut message, file_len as u128);
        message.push_str(" does not match indexed size ");
        push_decimal(&mut message, index.source_size as u128);
        return Err(IndexError { message });
    }
    if let Err(e) = verify_offsets(index.record_count, &index.offsets, index.source_size) {
        return Err(e);
    }
    if file_len == 0 || num_partitions == 0 || index.record_count == 0 {
        let none: Vec<(usize, usize)> = Vec::new();
        proof {
            assert(int_ranges(none@) =~= Seq::empty());
        }
        return Ok(none);
    }
    let n: usize = if num_partitions < file_len {
        num_partitions
    } else {
        file_len
    };
    let mut boundaries: Vec<usize> = Vec::new();
    let mut last: usize = 0;
    let mut i: usize = 1;
    let ghost all = index_cuts(index@, n as int, 1, 0);
    proof {
        assert(int_offsets(boundaries@) + all =~= all);
    }
    while i < n
        invariant
            1 <= i <= n,
            index.stride > 0,
            index.offsets@.len() > 0,
            file_len == index.source_size,
            last <= file_len,
            int_offsets(boundaries@) + index_cuts(index@, n as int, i as int, last as int) == all,
        decreases n - i,
    {
        let offset: u64 = cut_offset(index, i, n);
        if offset > last as u64 && offset < file_len as u64 {
            let boundary: usize = offset as usize;
            let ghost before = boundaries@;
            boundaries.push(boundary);
            proof {
                let rest = index_cuts(index@, n as int, i + 1, boundary as int);
                assert(int_offsets(boundaries@) =~= int_offsets(before) + seq![boundary as int]);
                assert(int_offsets(before) + (seq![boundary as int] + rest) =~= int_offsets(
                    boundaries@,
                ) + rest);
            }
            last = boundary;
        }
        i = i + 1;
    }
    proof {
        assert(int_offsets(boundaries@) + Seq::<int>::empty() =~= int_offsets(boundaries@));
    }
    Ok(ranges_from_boundaries(file_len, boundaries.as_slice()))
}

proof fn lemma_index_cuts(index: Index, n: int, i: int, last: int)
    requires
        0 < n,
        1 <= i <= n,
        0 <= last < index.source_size,
        index.offsets.len() > 0,
        index.stride > 0,
    ensures
        tiles(
            ranges_between(index.source_size as int, last, index_cuts(index, n, i, last)),
            last,
            index.source_size as int,
        ),
        inner_ends(
            ranges_between(index.source_size as int, last, index_cuts(index, n, i, last)),
            |end: int| is_recorded(index, end),
        ),
        ranges_between(index.source_size as int, last, index_cuts(index, n, i, last)).len() <= n - i
            + 1,
    decreases n - i,
{
    let len = index.source_size as int;
    if i < n {
        let record = (index.record_count * i) / n;
        let slot = nearest_slot(record, index.stride as int, index.offsets.len() as int);
        assert(0 <= slot < index.offsets.len()) by {
            assert(index.record_count * i >= 0) by (nonlinear_arith)
                requires
                    index.record_count >= 0,
                    i >= 0,
            ;
            vstd::arithmetic::div_mod::lemma_div_pos_is_pos(index.record_count * i, n);
            vstd::arithmetic::div_mod::lemma_div_pos_is_pos(
                record + index.stride as int / 2,
                index.stride as int,
            );
        }
        let offset = index.offsets[slot] as int;
        if offset <= last || offset >= len {
            lemma_index_cuts(index, n, i + 1, last);
        } else {
            lemma_index_cuts(index, n, i + 1, offset);
            let rest_cuts = index_cuts(index, n, i + 1, offset);
            let cuts = seq![offset] + rest_cuts;
            assert(cuts.drop_first() =~= rest_cuts);
            let rest = ranges_between(len, offset, rest_cuts);
            let all = ranges_between(len, last, cuts);
            assert(all == seq![(last, offset)] + rest);
            lemma_tiles_cons(last, offset, rest, len);
            assert(is_recorded(index, offset)) by {
                assert(index.offsets[slot] == offset);
            }
            assert forall|k: int| 0 <= k < all.len() - 1 implies is_recorded(
                index,
                (#[trigger] all[k]).1,
            ) by {
                if k > 0 {
                    assert(all[k] == rest[k - 1]);
                }
            }
        }
    }
}

/// The index holds this record start.
pub open spec fn is_recorded(index: Index, offset: int) -> bool {
    exists|k: int| 0 <= k < index.offsets.len() && #[trigger] index.offsets[k] == offset
}

/// Law: the ranges that an index gives cover the source exactly, are at most as
/// many as asked for, and every one but the last ends at a record start that the
/// index holds. (No range is given for an index without records, nor where none
/// is asked for.)
pub proof fn law_index_ranges_cover(index: Index, num_partitions: int)
    requires
        0 <= num_partitions,
        index.source_size == 0 || num_partitions > 0 && index.record_count > 0,
    ensures
        index_ranges(index, num_partitions, index.source_size as int) matches Ok(ranges) ==> {
            &&& tiles(ranges, 0, index.source_size as int)
            &&& inner_ends(ranges, |end: int| is_recorded(index, end))
            &&& ranges.len() <= num_partitions
        },
{
    if index.stride > 0 && index.source_size > 0 && check_offsets(
        index.record_count,
        index.offsets,
        index.source_size,
    ) is Ok {
        let n = if num_partitions < index.source_size {
            num_partitions
        } else {
            index.source_size as int
        };
        lemma_index_cuts(index, n, 1, 0);
    }
}

/// The offsets in a document.
pub open spec fn offset_layouts(offsets: Seq<nat>) -> Seq<Layout> {
    offsets.map_values(|x: nat| Layout::Number(x))
}

/// The members that hold the record starts.
pub open spec fn starts_members(index: Index) -> Seq<(Seq<char>, Layout)> {
    seq![
        ("stride"@, Layout::Number(index.stride)),
        ("record_count"@, Layout::Number(index.record_count)),
        ("record_offsets"@, Layout::Array(Style::Block(4), offset_layouts(index.offsets))),
    ]
}

/// The members of an index.
pub open spec fn index_members(index: Index) -> Seq<(Seq<char>, Layout)> {
    seq![
        ("schema"@, Layout::Text(INDEX_SCHEMA@)),
        ("schema_version"@, Layout::Number(1)),
        ("generator"@, Layout::Object(Style::Inline, program_members())),
        (
            "source"@,
            Layout::Object(
                Style::Block(2),
                source_members(index.source_path, index.source_size, index.identity),
            ),
        ),
        ("framing"@, Layout::Object(Style::Block(2), framing_members(index.framing))),
        ("index"@, Layout::Object(Style::Block(2), starts_members(index))),
    ]
}

/// An index as a document.
pub open spec fn index_layout(index: Index) -> Layout {
    Layout::Object(Style::Block(0), index_members(index))
}

/// The unsigned numbers of the items from `k` on, behind those of `acc`.
pub open spec fn read_offsets(items: Seq<JsonValue>, k: int, acc: Seq<nat>) -> Result<
    Seq<nat>,
    Seq<char>,
>
    decreases items.len() - k,
{
    if k >= items.len() {
        Ok(acc)
    } else {
        match unsigned_of(items[k], u64::MAX as nat) {
            Some(n) => read_offsets(items, k + 1, acc.push(n)),
            None => Err("index offset is not an unsigned integer"@),
        }
    }
}

/// The stride, the number of records and the record starts.
pub open spec fn read_starts(doc: JsonValue, size: nat) -> Result<
    (nat, nat, Seq<nat>),
    Seq<char>,
> {
    match lookup(doc, "index"@) {
        None => Err("index is missing index block"@),
        Some(block) => match number_member(block, "stride"@, u64::MAX as nat) {
            None => Err("index stride is missing"@),
            Some(stride) => if stride == 0 {
                Err("index stride must be > 0"@)
            } else {
                match number_member(block, "record_count"@, u64::MAX as nat) {
                    None => Err("index record_count is missing"@),
                    Some(record_count) => match lookup(block, "record_offsets"@) {
                        Some(JsonValue::Array(items)) => match read_offsets(
                            items,
                            0,
                            Seq::empty(),
                        ) {
                            Err(e) => Err(e),
                            Ok(offsets) => match check_offsets(record_count, offsets, size) {
                                Err(e) => Err(e),
                                Ok(_) => Ok((stride, record_count, offsets)),
                            },
                        },
                        _ => Err("index record_offsets is missing"@),
                    },
                }
            },
        },
    }
}

/// The index that a document holds.
pub open spec fn read_index_value(doc: JsonValue) -> Result<Index, Seq<char>> {
    if text_member(doc, "schema"@) != Some(INDEX_SCHEMA@) {
        Err("unexpected index schema"@)
    } else if number_member(doc, "schema_version"@, u64::MAX as nat) != Some(1nat) {
        Err("unsupported index schema_version"@)
    } else {
        match lookup(doc, "source"@) {
            None => Err("index is missing source"@),
            Some(source) => match identity_of(source) {
                None => Err("index source identity is malformed"@),
                Some(identity) => match text_member(source, "path"@) {
                    None => Err("index source path is missing"@),
                    Some(source_path) => match lookup(doc, "framing"@) {
                        None => Err("index is missing framing"@),
                        Some(value) => match framing_of(value) {
                            None => Err("index framing descriptor is malformed"@),
                            Some(framing) => match read_starts(doc, identity.size) {
                                Err(e) => Err(e),
                                Ok((stride, record_count, offsets)) => Ok(
                                    Index {
                                        source_path,
                                        source_size: identity.size,
                                        identity,
                                        framing,
                                        stride,
                                        record_count,
                                        offsets,
                                    },
                                ),
                            },
                        },
                    },
                },
            },
        }
    }
}

/// The index that a text holds.
pub open spec fn read_index(text: Seq<char>) -> Result<Index, Seq<char>> {
    match document(text) {
        Err(fault) => Err(json_error_text(fault_position(text, fault), fault.message)),
        Ok(doc) => read_index_value(doc),
    }
}

fn offsets_doc(offsets: &Vec<u64>) -> (r: Doc)
    ensures
        r@ == Layout::Array(Style::Block(4), offset_layouts(nat_offsets(offsets@))),
{
    let mut items: Vec<Doc> = Vec::new();
    let mut i: usize = 0;
    while i < offsets.len()
        invariant
            i <= offsets@.len(),
            doc_items(items@) == offset_layouts(nat_offsets(offsets@)).take(i as int),
        decreases offsets@.len() - i,
    {
        let ghost before = items@;
        items.push(Doc::Number(offsets[i] as u128));
        proof {
            assert(doc_items(items@) =~= doc_items(before).push(items@.last()@));
            assert(doc_items(items@) =~= offset_layouts(nat_offsets(offsets@)).take(i + 1));
        }
        i = i + 1;
    }
    proof {
        assert(doc_items(items@) =~= offset_layouts(nat_offsets(offsets@)));
    }
    array_doc(Style::Block(4), items)
}

fn parse_offsets(items: &[Json]) -> (r: Result<Vec<u64>, IndexError>)
    ensures
        match r {
            Ok(offsets) => read_offsets(item_values(items@), 0, Seq::empty()) == Ok::<
                Seq<nat>,
                Seq<char>,
            >(nat_offsets(offsets@)),
            Err(e) => read_offsets(item_values(items@), 0, Seq::empty()) == Err::<
                Seq<nat>,
                Seq<char>,
            >(e.message@),
        },
{
    let mut offsets: Vec<u64> = Vec::new();
    let mut k: usize = 0;
    let ghost values = item_values(items@);
    proof {
        assert(nat_offsets(offsets@) =~= Seq::empty());
    }
    while k < items.len()
        invariant
            k <= items@.len(),
            values == item_values(items@),
            read_offsets(values, k as int, nat_offsets(offsets@)) == read_offsets(
                values,
                0,
                Seq::empty(),
            ),
        decreases items@.len() - k,
    {
        proof {
            assert(values[k as int] == items@[k as int]@);
        }
        match items[k].as_u64() {
            Some(n) => {
                let ghost before = offsets@;
                offsets.push(n);
                proof {
                    assert(nat_offsets(offsets@) =~= nat_offsets(before).push(n as nat));
                }
            },
            None => {
                return Err(index_error("index offset is not an unsigned integer"));
            },
        }
        k = k + 1;
    }
    Ok(offsets)
}

fn u64_at(value: &Json, key: &str) -> (r: Option<u64>)
    ensures
        match r {
            Some(n) => number_member(value@, key@, u64::MAX as nat) == Some(n as nat),
            None => number_member(value@, key@, u64::MAX as nat) is None,
        },
{
    match value.get(key) {
        Some(v) => v.as_u64(),
        None => None,
    }
}

/// The stride, the number of records and the record starts of a document.
fn parse_starts(doc: &Json, size: u64) -> (r: Result<(u64, u64, Vec<u64>), IndexError>)
    ensures
        match r {
            Ok((stride, record_count, offsets)) => read_starts(doc@, size as nat) == Ok::<
                (nat, nat, Seq<nat>),
                Seq<char>,
            >((stride as nat, record_count as nat, nat_offsets(offsets@))),
            Err(e) => read_starts(doc@, size as nat) == Err::<(nat, nat, Seq<nat>), Seq<char>>(
                e.message@,
            ),
        },
{
    let block = match doc.get("index") {
        Some(v) => v,
        None => {
            return Err(index_error("index is missing index block"));
        },
    };
    let stride: u64 = match u64_at(block, "stride") {
        Some(n) => n,
        None => {
            return Err(index_error("index stride is missing"));
        },
    };
    if stride == 0 {
        return Err(index_error("index stride must be > 0"));
    }
    let record_count: u64 = match u64_at(block, "record_count") {
        Some(n) => n,
        None => {
            return Err(index_error("index record_count is missing"));
        },
    };
    let items = match block.get("record_offsets") {
        Some(v) => match v.as_array() {
            Some(items) => items,
            None => {
                return Err(index_error("index record_offsets is missing"));
            },
        },
        None => {
            return Err(index_error("index record_offsets is missing"));
        },
    };
    let offsets = match parse_offsets(items) {
        Ok(offsets) => offsets,
        Err(e) => {
            return Err(e);
        },
    };
    match verify_offsets(record_count, &offsets, size) {
        Ok(_) => Ok((stride, record_count, offsets)),
        Err(e) => Err(e),
    }
}

impl RecordIndex {
    /// The index as a JSON text. Equal indexes give equal texts.
    pub fn to_json(&self) -> (r: String)
        ensures
            r@ == rendered(index_layout(self@)),
    {
        let starts = vec![
            named("stride", Doc::Number(self.stride as u128)),
            named("record_count", Doc::Number(self.record_count as u128)),
            named("record_offsets", offsets_doc(&self.offsets)),
        ];
        proof {
            assert(doc_members(starts@) =~= starts_members(self@));
        }
        let members = vec![
            named("schema", text_doc(INDEX_SCHEMA)),
            named("schema_version", Doc::Number(INDEX_SCHEMA_VERSION as u128)),
            named("generator", program_doc()),
            named(
                "source",
                source_doc(self.source_path.as_str(), self.source_size, &self.identity),
            ),
            named("framing", framing_doc(&self.framing)),
            named("index", object_doc(Style::Block(2), starts)),
        ];
        proof {
            assert(doc_members(members@) =~= index_members(self@));
        }
        object_doc(Style::Block(0), members).to_text()
    }

    /// Read an index back from its text.
    pub fn parse(text: &str) -> (r: Result<RecordIndex, IndexError>)
        ensures
            match r {
                Ok(index) => read_index(text@) == Ok::<Index, Seq<char>>(index@),
                Err(e) => read_index(text@) == Err::<Index, Seq<char>>(e.message@),
            },
    {
        let doc = match Json::parse(text) {
            Ok(doc) => doc,
            Err(error) => {
                return Err(IndexError { message: error.to_string() });
            },
        };
        match str_member(&doc, "schema") {
            Some(schema) => {
                if !same_text(schema, INDEX_SCHEMA) {
                    return Err(index_error("unexpected index schema"));
                }
            },
            None => {
                return Err(index_error("unexpected index schema"));
            },
        }
        match u64_at(&doc, "schema_version") {
            Some(version) => {
                if version != INDEX_SCHEMA_VERSION as u64 {
                    return Err(index_error("unsupported index schema_version"));
                }
            },
            None => {
                return Err(index_error("unsupported index schema_version"));
            },
        }
        let source = match doc.get("source") {
            Some(v) => v,
            None => {
                return Err(index_error("index is missing source"));
            },
        };
        let identity = match file_identity_from_json(source) {
            Some(identity) => identity,
            None => {
                return Err(index_error("index source identity is malformed"));
            },
        };
        let source_path = match str_member(source, "path") {
            Some(path) => path.to_owned(),
            None => {
                return Err(index_error("index source path is missing"));
            },
        };
        let framing_value = match doc.get("framing") {
            Some(v) => v,
            None => {
                return Err(index_error("index is missing framing"));
            },
        };
        let framing = match framing_descriptor_from_json(framing_value) {
            Some(framing) => framing,
            None => {
                return Err(index_error("index framing descriptor is malformed"));
            },
        };
        match parse_starts(&doc, identity.size) {
            Ok((stride, record_count, offsets)) => Ok(
                RecordIndex {
                    source_path,
                    source_size: identity.size,
                    identity,
                    framing,
                    stride,
                    record_count,
                    offsets,
                },
            ),
            Err(e) => Err(e),
        }
    }
}

/// There are as many slots as strides begin.
pub proof fn lemma_slot_count(starts: Seq<int>, stride: int)
    requires
        stride > 0,
    ensures
        every_nth(starts, stride).len() == (starts.len() + stride - 1) / stride,
    decreases starts.len(),
{
    if starts.len() == 0 {
        vstd::arithmetic::div_mod::lemma_basic_div(stride - 1, stride);
    } else {
        lemma_slot_count(starts.drop_last(), stride);
        lemma_count_step(starts.len() as int, stride);
    }
}

/// Slot `k` holds start `k * stride`.
pub proof fn lemma_slot(starts: Seq<int>, stride: int, k: int)
    requires
        stride > 0,
        forall|i: int| 0 <= i < starts.len() ==> #[trigger] starts[i] >= 0,
        0 <= k < every_nth(starts, stride).len(),
    ensures
        0 <= k * stride < starts.len(),
        every_nth(starts, stride)[k] == starts[k * stride],
    decreases starts.len(),
{
    let shorter = starts.drop_last();
    let front = every_nth(shorter, stride);
    lemma_slot_count(shorter, stride);
    lemma_count_step(starts.len() as int, stride);
    if k < front.len() {
        assert forall|i: int| 0 <= i < shorter.len() implies #[trigger] shorter[i] >= 0 by {
            assert(shorter[i] == starts[i]);
        }
        lemma_slot(shorter, stride, k);
    } else {
        assert(k == front.len());
        assert(k * stride == starts.len() - 1);
    }
}

/// One more start fills one more slot exactly where its number is a multiple of
/// the stride.
proof fn lemma_count_step(m: int, stride: int)
    requires
        m > 0,
        stride > 0,
    ensures
        (m - 1) % stride == 0 ==> (m + stride - 1) / stride == (m - 1 + stride - 1) / stride + 1
            && ((m - 1 + stride - 1) / stride) * stride == m - 1,
        (m - 1) % stride != 0 ==> (m + stride - 1) / stride == (m - 1 + stride - 1) / stride,
{
    let q = (m - 1) / stride;
    let r = (m - 1) % stride;
    vstd::arithmetic::div_mod::lemma_fundamental_div_mod(m - 1, stride);
    assert(m - 1 == q * stride + r) by (nonlinear_arith)
        requires
            m - 1 == stride * q + r,
    ;
    assert(m + stride - 1 == (q + 1) * stride + r) by (nonlinear_arith)
        requires
            m - 1 == q * stride + r,
    ;
    vstd::arithmetic::div_mod::lemma_fundamental_div_mod_converse(
        m + stride - 1,
        stride,
        q + 1,
        r,
    );
    if r == 0 {
        vstd::arithmetic::div_mod::lemma_fundamental_div_mod_converse(
            m - 1 + stride - 1,
            stride,
            q,
            stride - 1,
        );
    } else {
        assert(m - 1 + stride - 1 == (q + 1) * stride + (r - 1)) by (nonlinear_arith)
            requires
                m - 1 == q * stride + r,
        ;
        vstd::arithmetic::div_mod::lemma_fundamental_div_mod_converse(
            m - 1 + stride - 1,
            stride,
            q + 1,
            r - 1,
        );
    }
}

proof fn lemma_starts_inside(
    cut: spec_fn(int) -> Result<Option<int>, SourceError>,
    len: int,
    cursor: int,
)
    requires
        0 <= cursor,
    ensures
        record_starts(cut, len, cursor) matches Ok(starts) ==> (forall|i: int|
            0 <= i < starts.len() ==> cursor <= #[trigger] starts[i] < len) && (cursor < len
            ==> starts.len() > 0 && starts[0] == cursor) && (forall|i: int, j: int|
            0 <= i < j < starts.len() ==> #[trigger] starts[i] < #[trigger] starts[j]),
    decreases len - cursor,
{
    if cursor < len {
        if let Ok(Some(end)) = cut(cursor) {
            if cursor < end < len {
                lemma_starts_inside(cut, len, end);
            }
        }
    }
}

/// Slot `k` holds the start of record `k * stride`.
pub open spec fn slot_holds(offsets: Seq<nat>, starts: Seq<int>, stride: int, k: int) -> bool {
    0 <= k * stride < starts.len() && offsets[k] == starts[k * stride]
}

/// Law: an index that was scanned holds record starts and nothing else; slot `k`
/// holds the start of record `k * stride`; and it passes its own checks.
pub proof fn law_scanned_index_is_sound(
    cut: spec_fn(int) -> Result<Option<int>, SourceError>,
    len: int,
    stride: int,
)
    requires
        0 <= len,
        0 < stride,
    ensures
        record_starts(cut, len, 0) matches Ok(starts) ==> {
            let offsets = every_nth(starts, stride);
            &&& forall|k: int|
                0 <= k < offsets.len() ==> #[trigger] slot_holds(offsets, starts, stride, k)
            &&& check_offsets(starts.len(), offsets, len as nat) is Ok
        },
{
    lemma_starts_inside(cut, len, 0);
    if let Ok(starts) = record_starts(cut, len, 0) {
        let offsets = every_nth(starts, stride);
        lemma_slot_count(starts, stride);
        assert forall|k: int| 0 <= k < offsets.len() implies #[trigger] slot_holds(
            offsets,
            starts,
            stride,
            k,
        ) by {
            lemma_slot(starts, stride, k);
        }
        assert forall|i: int, j: int| 0 <= i && j == i + 1 && j < offsets.len() implies
            #[trigger] offsets[i] < #[trigger] offsets[j] by {
            assert(i * stride < j * stride) by (nonlinear_arith)
                requires
                    j == i + 1,
                    stride > 0,
            ;
            lemma_slot(starts, stride, i);
            lemma_slot(starts, stride, j);
            assert(starts[i * stride] < starts[j * stride]);
        }
        assert forall|i: int| 0 <= i < offsets.len() implies #[trigger] offsets[i] < len by {
            lemma_slot(starts, stride, i);
        }
        if starts.len() > 0 {
            assert(offsets.len() > 0) by {
                lemma_count_step(1, stride);
                vstd::arithmetic::div_mod::lemma_div_is_ordered(
                    stride,
                    starts.len() + stride - 1,
                    stride,
                );
                vstd::arithmetic::div_mod::lemma_div_by_self(stride);
            }
            lemma_slot(starts, stride, 0);
            assert(0 * stride == 0) by (nonlinear_arith);
            assert(offsets[0] == 0);
        }
        assert(increasing(offsets));
        assert(all_inside(offsets, len as nat));
    }
}

/// Law: the ranges that a scanned index gives are owed, cover the source, and
/// every one but the last ends at a record start of the source.
pub proof fn law_indexed_cuts_are_record_starts(
    cut: spec_fn(int) -> Result<Option<int>, SourceError>,
    starts: Seq<int>,
    index: Index,
    num_partitions: int,
)
    requires
        record_starts(cut, index.source_size as int, 0) == Ok::<Seq<int>, SourceError>(starts),
        index.stride > 0,
        index.record_count == starts.len(),
        index.offsets == every_nth(starts, index.stride as int),
        num_partitions > 0,
    ensures
        index_ranges(index, num_partitions, index.source_size as int) matches Ok(ranges) && {
            &&& tiles(ranges, 0, index.source_size as int)
            &&& inner_ends(ranges, |end: int| starts.contains(end))
            &&& ranges.len() <= num_partitions
        },
{
    let size = index.source_size as int;
    law_scanned_index_is_sound(cut, size, index.stride as int);
    lemma_starts_inside(cut, size, 0);
    law_index_ranges_cover(index, num_partitions);
    let ranges = index_ranges(index, num_partitions, size)->Ok_0;
    assert forall|i: int| 0 <= i < ranges.len() - 1 implies starts.contains(
        (#[trigger] ranges[i]).1,
    ) by {
        let end = ranges[i].1;
        let recorded = |end: int| is_recorded(index, end);
        assert(recorded(end));
        let k = choose|k: int|
            0 <= k < index.offsets.len() && #[trigger] index.offsets[k] == end;
        assert(slot_holds(index.offsets, starts, index.stride as int, k));
        assert(starts[k * index.stride] == end);
    }
    assert(inner_ends(ranges, |end: int| starts.contains(end)));
}

} // verus!
