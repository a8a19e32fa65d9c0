//! Random access to the chunks of a byte source.

use crate::plan::ChunkPlan;
use crate::ranges::{int_ranges, lemma_tiles_ordered, partition, tiles};
use crate::scanner::{
    chunk_ranges, cut_at_record, find_chunk_boundaries, find_chunk_boundaries_pattern,
    find_partition_boundaries, find_partition_boundaries_pattern, fixed_count, fixed_range,
    law_chunks_cover, law_slice_partition_covers, ChunkCursor, PatternChunkCursor,
};
use vstd::prelude::*;

verus! {

/// The bytes of a source together with the current chunk layout.
///
/// Each scan replaces the layout; a fresh chunker has none.
#[derive(Debug)]
pub struct MmapChunker<'a> {
    data: &'a [u8],
    plan: ChunkPlan,
}

/// A plan of ranges that tile the source fits it.
pub proof fn lemma_tiling_plan_fits(plan: ChunkPlan, ranges: Seq<(int, int)>, len: int)
    requires
        plan.chunks(len) == ranges,
        tiles(ranges, 0, len),
        !(plan is Fixed),
    ensures
        plan.fits(len),
{
    lemma_tiles_ordered(ranges, 0, len);
    assert forall|i: int| 0 <= i < plan.count() implies (match #[trigger] plan.range(i, len) {
        Some(r) => 0 <= r.0 <= r.1 <= len,
        None => false,
    }) by {
        assert(plan.chunks(len)[i] == plan.range(i, len)->0);
        assert(ranges[i].0 < ranges[i].1);
    }
}

impl<'a> MmapChunker<'a> {
    /// The bytes of the source.
    pub closed spec fn bytes(&self) -> Seq<u8> {
        self.data@
    }

    /// The chunks of the current layout.
    pub closed spec fn layout(&self) -> Seq<(int, int)> {
        self.plan.chunks(self.data@.len() as int)
    }

    /// Every chunk of the layout lies inside the source.
    #[verifier::type_invariant]
    pub closed spec fn inv(&self) -> bool {
        self.plan.fits(self.data@.len() as int)
    }

    /// A chunker over `data`, without a layout.
    pub fn new(data: &'a [u8]) -> (chunker: Self)
        ensures
            chunker.bytes() == data@,
            chunker.layout() == Seq::<(int, int)>::empty(),
    {
        let chunker = MmapChunker { data, plan: ChunkPlan::empty() };
        proof {
            assert(chunker.layout() =~= Seq::empty());
        }
        chunker
    }

    /// Number of chunks in the current layout.
    pub fn chunk_count(&self) -> (r: usize)
        ensures
            r == self.layout().len(),
    {
        self.plan.len()
    }

    /// Lay out chunks of about `chunk_size` bytes, each ending after a
    /// delimiter byte, and return their number.
    pub fn scan_delimited(&mut self, chunk_size: usize, delimiter: u8) -> (count: usize)
        ensures
            final(self).bytes() == old(self).bytes(),
            final(self).layout() == chunk_ranges(
                old(self).bytes(),
                chunk_size as int,
                seq![delimiter],
                0,
            ),
            count == final(self).layout().len(),
    {
        let chunks = find_chunk_boundaries(self.data, chunk_size, delimiter);
        let plan = ChunkPlan::from_ranges(chunks);
        proof {
            law_chunks_cover(self.data@, chunk_size as int, seq![delimiter], 0);
            lemma_tiling_plan_fits(plan, int_ranges(chunks@), self.data@.len() as int);
        }
        self.plan = plan;
        self.plan.len()
    }

    /// As [`scan_delimited`](Self::scan_delimited), with a delimiter of one or
    /// more bytes.
    pub fn scan_delimited_pattern(&mut self, chunk_size: usize, delimiter: &[u8]) -> (count: usize)
        requires
            delimiter@.len() > 0,
        ensures
            final(self).bytes() == old(self).bytes(),
            final(self).layout() == chunk_ranges(
                old(self).bytes(),
                chunk_size as int,
                delimiter@,
                0,
            ),
            count == final(self).layout().len(),
    {
        let chunks = find_chunk_boundaries_pattern(self.data, chunk_size, delimiter);
        let plan = ChunkPlan::from_ranges(chunks);
        proof {
            law_chunks_cover(self.data@, chunk_size as int, delimiter@, 0);
            lemma_tiling_plan_fits(plan, int_ranges(chunks@), self.data@.len() as int);
        }
        self.plan = plan;
        self.plan.len()
    }

    /// Lay out chunks of exactly `chunk_size` bytes (0 counts as 1), the last
    /// one possibly shorter, and return their number.
    pub fn scan_fixed(&mut self, chunk_size: usize) -> (count: usize)
        ensures
            final(self).bytes() == old(self).bytes(),
            final(self).layout() == Seq::new(
                fixed_count(old(self).bytes().len() as int, chunk_size as int) as nat,
                |i: int| fixed_range(old(self).bytes().len() as int, chunk_size as int, i),
            ),
            count == final(self).layout().len(),
    {
        let plan = ChunkPlan::fixed(self.data.len(), chunk_size);
        self.plan = plan;
        proof {
            assert(self.layout() =~= Seq::new(
                fixed_count(self.data@.len() as int, chunk_size as int) as nat,
                |i: int| fixed_range(self.data@.len() as int, chunk_size as int, i),
            )) by {
                assert forall|i: int| 0 <= i < self.layout().len() implies self.layout()[i]
                    == fixed_range(self.data@.len() as int, chunk_size as int, i) by {
                    assert(self.plan.range(i, self.data@.len() as int) is Some);
                }
            }
        }
        self.plan.len()
    }

    /// Lay out at most `num_partitions` ranges of about equal size, each
    /// ending after a delimiter byte, and return their number.
    pub fn partition_records(&mut self, num_partitions: usize, delimiter: u8) -> (count: usize)
        ensures
            final(self).bytes() == old(self).bytes(),
            final(self).layout() == partition(
                old(self).bytes().len() as int,
                num_partitions as int,
                cut_at_record(old(self).bytes(), seq![delimiter]),
            ),
            count == final(self).layout().len(),
    {
        let ranges = find_partition_boundaries(self.data, num_partitions, delimiter);
        let plan = ChunkPlan::from_ranges(ranges);
        proof {
            if num_partitions > 0 {
                law_slice_partition_covers(self.data@, seq![delimiter], num_partitions as int);
                lemma_tiling_plan_fits(plan, int_ranges(ranges@), self.data@.len() as int);
            } else {
                assert(int_ranges(ranges@).len() == 0);
            }
        }
        self.plan = plan;
        self.plan.len()
    }

    /// As [`partition_records`](Self::partition_records), with a delimiter of
    /// one or more bytes.
    pub fn partition_records_pattern(&mut self, num_partitions: usize, delimiter: &[u8]) -> (count:
        usize)
        requires
            delimiter@.len() > 0,
        ensures
            final(self).bytes() == old(self).bytes(),
            final(self).layout() == partition(
                old(self).bytes().len() as int,
                num_partitions as int,
                cut_at_record(old(self).bytes(), delimiter@),
            ),
            count == final(self).layout().len(),
    {
        let ranges = find_partition_boundaries_pattern(self.data, num_partitions, delimiter);
        let plan = ChunkPlan::from_ranges(ranges);
        proof {
            if num_partitions > 0 {
                law_slice_partition_covers(self.data@, delimiter@, num_partitions as int);
                lemma_tiling_plan_fits(plan, int_ranges(ranges@), self.data@.len() as int);
            } else {
                assert(int_ranges(ranges@).len() == 0);
            }
        }
        self.plan = plan;
        self.plan.len()
    }

    /// A cursor over the chunks that
    /// [`scan_delimited`](Self::scan_delimited) would lay out.
    pub fn delimited_cursor(&self, chunk_size: usize, delimiter: u8) -> (cursor: ChunkCursor<'a>)
        ensures
            cursor.bytes() == self.bytes(),
            cursor.size() == chunk_size,
            cursor.pattern() == seq![delimiter],
            cursor.at() == 0,
    {
        ChunkCursor::new(self.data, chunk_size, delimiter)
    }

    /// A cursor over the chunks that
    /// [`scan_delimited_pattern`](Self::scan_delimited_pattern) would lay out.
    pub fn delimited_cursor_pattern<'p>(&self, chunk_size: usize, delimiter: &'p [u8]) -> (cursor:
        PatternChunkCursor<'a, 'p>)
        requires
            delimiter@.len() > 0,
        ensures
            cursor.bytes() == self.bytes(),
            cursor.size() == chunk_size,
            cursor.pattern() == delimiter@,
            cursor.at() == 0,
    {
        PatternChunkCursor::new(self.data, chunk_size, delimiter)
    }

    /// The bytes of chunk `index` of the layout, or `None` past the last one.
    pub fn get_chunk(&self, index: usize) -> (r: Option<&'a [u8]>)
        ensures
            match r {
                Some(chunk) => index < self.layout().len() && chunk@ == self.bytes().subrange(
                    self.layout()[index as int].0,
                    self.layout()[index as int].1,
                ),
                None => index >= self.layout().len(),
            },
    {
        proof {
            use_type_invariant(self);
        }
        match self.plan.range_at(index, self.data.len()) {
            Some((start, end)) => {
                proof {
                    assert(self.plan.range(index as int, self.data@.len() as int) is Some);
                    assert(self.layout()[index as int] == (start as int, end as int));
                }
                Some(vstd::slice::slice_subrange(self.data, start, end))
            },
            None => {
                proof {
                    if index < self.layout().len() {
                        assert(self.plan.range(index as int, self.data@.len() as int) is Some);
                    }
                }
                None
            },
        }
    }

    /// The whole source.
    pub fn as_bytes(&self) -> (r: &'a [u8])
        ensures
            r@ == self.bytes(),
    {
        self.data
    }

    /// Size of the source in bytes.
    pub fn len(&self) -> (r: usize)
        ensures
            r == self.bytes().len(),
    {
        self.data.len()
    }

    /// Whether the source is empty.
    pub fn is_empty(&self) -> (r: bool)
        ensures
            r == (self.bytes().len() == 0),
    {
        self.data.len() == 0
    }
}

} // verus!
