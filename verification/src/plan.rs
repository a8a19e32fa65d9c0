//! Chunk plans: where the chunks of a source lie, without its bytes.

use crate::ranges::{int_ranges, tiles};
use crate::scanner::{
    fixed_chunk_bounds, fixed_chunk_count, fixed_count, fixed_range, law_fixed_chunks_cover,
    lemma_fixed_count, step_of,
};
use vstd::prelude::*;

verus! {

/// The chunks of a source: none, a list of ranges, or equal steps.
#[derive(Debug)]
pub enum ChunkPlan {
    Empty,
    Ranges(Vec<(usize, usize)>),
    Fixed { chunk_size: usize, chunk_count: usize },
}

impl ChunkPlan {
    /// Number of chunks.
    pub open spec fn count(&self) -> int {
        match *self {
            ChunkPlan::Empty => 0,
            ChunkPlan::Ranges(ranges) => ranges@.len() as int,
            ChunkPlan::Fixed { chunk_count, .. } => chunk_count as int,
        }
    }

    /// The range of chunk `index` in a source of `source_len` bytes.
    pub open spec fn range(&self, index: int, source_len: int) -> Option<(int, int)> {
        if !(0 <= index < self.count()) {
            None
        } else {
            match *self {
                ChunkPlan::Empty => None,
                ChunkPlan::Ranges(ranges) => Some(int_ranges(ranges@)[index]),
                ChunkPlan::Fixed { chunk_size, .. } => if index < fixed_count(
                    source_len,
                    chunk_size as int,
                ) {
                    Some(fixed_range(source_len, chunk_size as int, index))
                } else {
                    None
                },
            }
        }
    }

    /// All chunks of a source of `source_len` bytes, in order.
    pub open spec fn chunks(&self, source_len: int) -> Seq<(int, int)> {
        Seq::new(self.count() as nat, |i: int| self.range(i, source_len)->0)
    }

    /// The plan was made for a source of `source_len` bytes: every chunk lies
    /// inside it.
    pub open spec fn fits(&self, source_len: int) -> bool {
        forall|i: int|
            0 <= i < self.count() ==> match #[trigger] self.range(i, source_len) {
                Some(r) => 0 <= r.0 <= r.1 <= source_len,
                None => false,
            }
    }

    /// A plan without chunks.
    pub fn empty() -> (plan: Self)
        ensures
            plan == ChunkPlan::Empty,
    {
        ChunkPlan::Empty
    }

    /// A plan of the given ranges.
    pub fn from_ranges(ranges: Vec<(usize, usize)>) -> (plan: Self)
        ensures
            plan == (if ranges@.len() == 0 {
                ChunkPlan::Empty
            } else {
                ChunkPlan::Ranges(ranges)
            }),
            plan.count() == ranges@.len(),
            forall|len: int| #[trigger] plan.chunks(len) == int_ranges(ranges@),
    {
        let plan = if ranges.is_empty() {
            ChunkPlan::Empty
        } else {
            ChunkPlan::Ranges(ranges)
        };
        proof {
            assert forall|len: int| #[trigger] plan.chunks(len) == int_ranges(ranges@) by {
                assert(plan.chunks(len) =~= int_ranges(ranges@));
            }
        }
        plan
    }

    /// A plan of equal steps through `file_len` bytes; a step of 0 counts as 1.
    pub fn fixed(file_len: usize, chunk_size: usize) -> (plan: Self)
        ensures
            plan == (if file_len == 0 {
                ChunkPlan::Empty
            } else {
                ChunkPlan::Fixed {
                    chunk_size: step_of(chunk_size as int) as usize,
                    chunk_count: fixed_count(file_len as int, chunk_size as int) as usize,
                }
            }),
            plan.count() == fixed_count(file_len as int, chunk_size as int),
            plan.fits(file_len as int),
            tiles(plan.chunks(file_len as int), 0, file_len as int),
    {
        proof {
            lemma_fixed_count(file_len as int, chunk_size as int);
        }
        if file_len == 0 {
            return ChunkPlan::Empty;
        }
        let step: usize = if chunk_size == 0 {
            1
        } else {
            chunk_size
        };
        let chunk_count: usize = fixed_chunk_count(file_len, step);
        let plan = ChunkPlan::Fixed { chunk_size: step, chunk_count };
        proof {
            law_fixed_chunks_cover(file_len as int, step as int);
            assert(plan.chunks(file_len as int) =~= Seq::new(
                fixed_count(file_len as int, step as int) as nat,
                |i: int| fixed_range(file_len as int, step as int, i),
            ));
            crate::ranges::lemma_tiles_ordered(
                plan.chunks(file_len as int),
                0,
                file_len as int,
            );
            assert forall|i: int| 0 <= i < plan.count() implies (match #[trigger] plan.range(
                i,
                file_len as int,
            ) {
                Some(r) => 0 <= r.0 <= r.1 <= file_len,
                None => false,
            }) by {
                assert(plan.chunks(file_len as int)[i] == plan.range(i, file_len as int)->0);
            }
        }
        plan
    }

    /// Number of chunks.
    pub fn len(&self) -> (r: usize)
        ensures
            r == self.count(),
    {
        match self {
            ChunkPlan::Empty => 0,
            ChunkPlan::Ranges(ranges) => ranges.len(),
            ChunkPlan::Fixed { chunk_size: _, chunk_count } => *chunk_count,
        }
    }

    /// The range of chunk `index`, or `None` past the last one.
    pub fn range_at(&self, index: usize, source_len: usize) -> (r: Option<(usize, usize)>)
        ensures
            match r {
                Some(range) => self.range(index as int, source_len as int) == Some(
                    (range.0 as int, range.1 as int),
                ),
                None => self.range(index as int, source_len as int) is None,
            },
    {
        match self {
            ChunkPlan::Empty => None,
            ChunkPlan::Ranges(ranges) => {
                if index < ranges.len() {
                    Some(ranges[index])
                } else {
                    None
                }
            },
            ChunkPlan::Fixed { chunk_size, chunk_count } => {
                if index >= *chunk_count {
                    return None;
                }
                fixed_chunk_bounds(source_len, *chunk_size, index)
            },
        }
    }
}

} // verus!
