//! The decisions of the handle-based engine interface: which call is refused
//! with which message, and what each call does to the current plan.
//!
//! The engine never sees an address: whoever holds the mapping passes its
//! bytes, and says which pointers of the call were null.

use crate::chunker::lemma_tiling_plan_fits;
use crate::plan::ChunkPlan;
use crate::ranges::{int_ranges, partition};
use crate::scanner::{
    chunk_ranges, cut_at_record, find_chunk_boundaries, find_chunk_boundaries_pattern,
    find_partition_boundaries, fixed_count, fixed_range, law_chunks_cover,
    law_slice_partition_covers,
};
use vstd::prelude::*;
use vstd::string::StringSliceAdditionalSpecFns;

verus! {

/// Interface version, major number in the upper half.
pub const ABI_VERSION: u32 = 0x0001_0003;

/// Chunk views point into the mapping.
pub const CAP_ZERO_COPY: u32 = 1;

/// Delimited scans take any delimiter byte.
pub const CAP_CONFIGURABLE_DELIMITER: u32 = 2;

/// Refused calls leave a message.
pub const CAP_ERROR_STRINGS: u32 = 4;

/// Fixed-size scans are available.
pub const CAP_FIXED_SIZE_CHUNKING: u32 = 8;

/// Record-aligned partitioning is available.
pub const CAP_RECORD_PARTITIONING: u32 = 16;

/// Delimiters of several bytes are available.
pub const CAP_MULTI_BYTE_DELIMITER: u32 = 32;

/// Size of the message buffer, terminator included.
pub const MAX_ERROR_LEN: usize = 256;

/// The interface version.
pub fn abi_version() -> (r: u32)
    ensures
        r == 0x0001_0003,
{
    ABI_VERSION
}

/// Every capability bit that this engine supports.
pub fn capabilities() -> (r: u32)
    ensures
        r == 63,
        r & CAP_ZERO_COPY != 0,
        r & CAP_CONFIGURABLE_DELIMITER != 0,
        r & CAP_ERROR_STRINGS != 0,
        r & CAP_FIXED_SIZE_CHUNKING != 0,
        r & CAP_RECORD_PARTITIONING != 0,
        r & CAP_MULTI_BYTE_DELIMITER != 0,
{
    proof {
        assert(1u32 | 2 | 4 | 8 | 16 | 32 == 63 && 63u32 & 1 == 1 && 63u32 & 2 == 2 && 63u32 & 4
            == 4 && 63u32 & 8 == 8 && 63u32 & 16 == 16 && 63u32 & 32 == 32) by (bit_vector);
    }
    CAP_ZERO_COPY | CAP_CONFIGURABLE_DELIMITER | CAP_ERROR_STRINGS | CAP_FIXED_SIZE_CHUNKING
        | CAP_RECORD_PARTITIONING | CAP_MULTI_BYTE_DELIMITER
}

/// Why a call was refused.
#[derive(Clone, Copy, Debug, PartialEq, Eq, Structural)]
pub enum EngineError {
    NullPath,
    OpenFailed,
    NullHandle,
    NullOut,
    ZeroDelimiterLen,
    NullDelimiter,
    DelimiterLenRange,
    ZeroPartitions,
    IndexOutOfBounds,
}

impl EngineError {
    /// The text left for the caller.
    pub open spec fn text(&self) -> Seq<char> {
        match *self {
            EngineError::NullPath => "path is null"@,
            EngineError::OpenFailed => "failed to open or map file"@,
            EngineError::NullHandle => "handle is null"@,
            EngineError::NullOut => "out_chunk is null"@,
            EngineError::ZeroDelimiterLen => "delimiter_len must be > 0"@,
            EngineError::NullDelimiter => "delimiter is null"@,
            EngineError::DelimiterLenRange => "delimiter_len exceeds supported range"@,
            EngineError::ZeroPartitions => "requested_partitions must be > 0"@,
            EngineError::IndexOutOfBounds => "chunk index out of bounds"@,
        }
    }

    /// The text left for the caller.
    pub fn message(&self) -> (r: &'static str)
        ensures
            r@ == self.text(),
    {
        match self {
            EngineError::NullPath => "path is null",
            EngineError::OpenFailed => "failed to open or map file",
            EngineError::NullHandle => "handle is null",
            EngineError::NullOut => "out_chunk is null",
            EngineError::ZeroDelimiterLen => "delimiter_len must be > 0",
            EngineError::NullDelimiter => "delimiter is null",
            EngineError::DelimiterLenRange => "delimiter_len exceeds supported range",
            EngineError::ZeroPartitions => "requested_partitions must be > 0",
            EngineError::IndexOutOfBounds => "chunk index out of bounds",
        }
    }
}

/// How many bytes of a message of `len` bytes fit in front of the terminator.
pub open spec fn kept_len(len: int) -> int {
    if len < MAX_ERROR_LEN - 1 {
        len
    } else {
        MAX_ERROR_LEN - 1
    }
}

/// Law: a message of up to 255 bytes is kept whole, and a longer one up to there,
/// so that with its terminator it never takes more than 256 bytes.
pub proof fn law_messages_fit_the_buffer(len: int)
    requires
        0 <= len,
    ensures
        len <= 255 ==> kept_len(len) == len,
        len > 255 ==> kept_len(len) + 1 == 256,
{
}

/// The bytes to leave in the message buffer: as much of the text as fits, and
/// a terminating zero.
pub fn error_bytes(message: &str) -> (r: Vec<u8>)
    ensures
        r@.len() == kept_len(message.spec_bytes().len() as int) + 1,
        r@ == message.spec_bytes().take(kept_len(message.spec_bytes().len() as int)).push(0),
{
    let source = message.as_bytes();
    let keep: usize = if source.len() < MAX_ERROR_LEN - 1 {
        source.len()
    } else {
        MAX_ERROR_LEN - 1
    };
    let mut out: Vec<u8> = Vec::new();
    let mut i: usize = 0;
    while i < keep
        invariant
            i <= keep <= source@.len(),
            out@ == source@.take(i as int),
        decreases keep - i,
    {
        out.push(source[i]);
        i = i + 1;
        proof {
            assert(out@ =~= source@.take(i as int));
        }
    }
    out.push(0);
    out
}

/// Whether a pattern scan is called with arguments it can use, in the order
/// in which they are looked at.
pub fn check_pattern_call(handle_is_null: bool, delimiter_is_null: bool, delimiter_len: usize) -> (r:
    Result<(), EngineError>)
    ensures
        r == (if handle_is_null {
            Err::<(), EngineError>(EngineError::NullHandle)
        } else if delimiter_len == 0 {
            Err(EngineError::ZeroDelimiterLen)
        } else if delimiter_is_null {
            Err(EngineError::NullDelimiter)
        } else if delimiter_len > isize::MAX {
            Err(EngineError::DelimiterLenRange)
        } else {
            Ok(())
        }),
{
    if handle_is_null {
        Err(EngineError::NullHandle)
    } else if delimiter_len == 0 {
        Err(EngineError::ZeroDelimiterLen)
    } else if delimiter_is_null {
        Err(EngineError::NullDelimiter)
    } else if delimiter_len > isize::MAX as usize {
        Err(EngineError::DelimiterLenRange)
    } else {
        Ok(())
    }
}

/// Whether a chunk view is asked for with usable pointers.
pub fn check_chunk_call(handle_is_null: bool, out_is_null: bool) -> (r: Result<(), EngineError>)
    ensures
        r == (if handle_is_null {
            Err::<(), EngineError>(EngineError::NullHandle)
        } else if out_is_null {
            Err(EngineError::NullOut)
        } else {
            Ok(())
        }),
{
    if handle_is_null {
        Err(EngineError::NullHandle)
    } else if out_is_null {
        Err(EngineError::NullOut)
    } else {
        Ok(())
    }
}

/// The plan behind an open handle.
#[derive(Debug)]
pub struct Engine {
    plan: ChunkPlan,
}

impl Engine {
    /// Number of chunks in the plan.
    pub closed spec fn count(&self) -> int {
        self.plan.count()
    }

    /// The chunks of the plan over a source of `len` bytes.
    pub closed spec fn layout(&self, len: int) -> Seq<(int, int)> {
        self.plan.chunks(len)
    }

    /// The plan was made for a source of `len` bytes.
    pub closed spec fn fits(&self, len: int) -> bool {
        self.plan.fits(len)
    }

    /// An engine that has not scanned yet.
    pub fn new() -> (engine: Self)
        ensures
            forall|len: int| #[trigger]
                engine.layout(len) == Seq::<(int, int)>::empty() && engine.fits(len),
    {
        let engine = Engine { plan: ChunkPlan::empty() };
        proof {
            assert forall|len: int| #[trigger]
                engine.layout(len) == Seq::<(int, int)>::empty() && engine.fits(len) by {
                assert(engine.layout(len) =~= Seq::empty());
            }
        }
        engine
    }

    /// Scan with a delimiter byte. An empty source has no chunks.
    pub fn scan_chunks_ex(&mut self, data: &[u8], chunk_size: usize, delimiter: u8) -> (count:
        usize)
        ensures
            final(self).layout(data@.len() as int) == chunk_ranges(
                data@,
                chunk_size as int,
                seq![delimiter],
                0,
            ),
            final(self).fits(data@.len() as int),
            count == final(self).layout(data@.len() as int).len(),
    {
        let chunks = find_chunk_boundaries(data, chunk_size, delimiter);
        self.plan = ChunkPlan::from_ranges(chunks);
        proof {
            law_chunks_cover(data@, chunk_size as int, seq![delimiter], 0);
            lemma_tiling_plan_fits(self.plan, int_ranges(chunks@), data@.len() as int);
        }
        self.plan.len()
    }

    /// Scan at line ends.
    pub fn scan_chunks(&mut self, data: &[u8], chunk_size: usize) -> (count: usize)
        ensures
            final(self).layout(data@.len() as int) == chunk_ranges(
                data@,
                chunk_size as int,
                seq![10u8],
                0,
            ),
            final(self).fits(data@.len() as int),
            count == final(self).layout(data@.len() as int).len(),
    {
        self.scan_chunks_ex(data, chunk_size, 10u8)
    }

    /// Scan with a delimiter of one or more bytes.
    pub fn scan_chunks_pattern(&mut self, data: &[u8], chunk_size: usize, delimiter: &[u8]) -> (r:
        Result<usize, EngineError>)
        ensures
            match r {
                Ok(count) => {
                    &&& delimiter@.len() > 0
                    &&& final(self).layout(data@.len() as int) == chunk_ranges(
                        data@,
                        chunk_size as int,
                        delimiter@,
                        0,
                    )
                    &&& final(self).fits(data@.len() as int)
                    &&& count == final(self).layout(data@.len() as int).len()
                },
                Err(e) => {
                    &&& delimiter@.len() == 0
                    &&& e == EngineError::ZeroDelimiterLen
                    &&& *final(self) == *old(self)
                },
            },
    {
        if delimiter.len() == 0 {
            return Err(EngineError::ZeroDelimiterLen);
        }
        let chunks = find_chunk_boundaries_pattern(data, chunk_size, delimiter);
        self.plan = ChunkPlan::from_ranges(chunks);
        proof {
            law_chunks_cover(data@, chunk_size as int, delimiter@, 0);
            lemma_tiling_plan_fits(self.plan, int_ranges(chunks@), data@.len() as int);
        }
        Ok(self.plan.len())
    }

    /// Lay out equal steps; a step of 0 counts as 1.
    pub fn scan_fixed(&mut self, file_len: usize, chunk_size: usize) -> (count: usize)
        ensures
            final(self).layout(file_len as int) == Seq::new(
                fixed_count(file_len as int, chunk_size as int) as nat,
                |i: int| fixed_range(file_len as int, chunk_size as int, i),
            ),
            final(self).fits(file_len as int),
            count == final(self).layout(file_len as int).len(),
    {
        self.plan = ChunkPlan::fixed(file_len, chunk_size);
        proof {
            assert(self.layout(file_len as int) =~= Seq::new(
                fixed_count(file_len as int, chunk_size as int) as nat,
                |i: int| fixed_range(file_len as int, chunk_size as int, i),
            )) by {
                assert forall|i: int| 0 <= i < self.plan.count() implies self.layout(
                    file_len as int,
                )[i] == fixed_range(file_len as int, chunk_size as int, i) by {
                    assert(self.plan.range(i, file_len as int) is Some);
                }
            }
        }
        self.plan.len()
    }

    /// Partition at a delimiter byte. An empty source has no partitions,
    /// whatever number was asked for; otherwise that number must not be zero.
    pub fn partition_records(&mut self, data: &[u8], requested_partitions: usize, delimiter: u8) -> (r:
        Result<usize, EngineError>)
        ensures
            match r {
                Ok(count) => {
                    &&& data@.len() == 0 || requested_partitions > 0
                    &&& final(self).layout(data@.len() as int) == partition(
                        data@.len() as int,
                        requested_partitions as int,
                        cut_at_record(data@, seq![delimiter]),
                    )
                    &&& final(self).fits(data@.len() as int)
                    &&& count == final(self).layout(data@.len() as int).len()
                },
                Err(e) => data@.len() > 0 && requested_partitions == 0 && e
                    == EngineError::ZeroPartitions && *final(self) == *old(self),
            },
    {
        if data.len() > 0 && requested_partitions == 0 {
            return Err(EngineError::ZeroPartitions);
        }
        let ranges = find_partition_boundaries(data, requested_partitions, delimiter);
        self.plan = ChunkPlan::from_ranges(ranges);
        proof {
            if requested_partitions > 0 {
                law_slice_partition_covers(data@, seq![delimiter], requested_partitions as int);
                lemma_tiling_plan_fits(self.plan, int_ranges(ranges@), data@.len() as int);
            } else {
                assert(int_ranges(ranges@).len() == 0);
            }
        }
        Ok(self.plan.len())
    }

    /// The range of chunk `index` in a source of `file_len` bytes.
    pub fn get_chunk(&self, file_len: usize, index: usize) -> (r: Result<
        (usize, usize),
        EngineError,
    >)
        requires
            self.fits(file_len as int),
        ensures
            match r {
                Ok(range) => index < self.layout(file_len as int).len() && (
                    range.0 as int,
                    range.1 as int,
                ) == self.layout(file_len as int)[index as int] && range.0 <= range.1 <= file_len,
                Err(e) => index >= self.layout(file_len as int).len() && e
                    == EngineError::IndexOutOfBounds,
            },
    {
        proof {
            if index < self.layout(file_len as int).len() {
                assert(self.plan.range(index as int, file_len as int) is Some);
            }
        }
        match self.plan.range_at(index, file_len) {
            Some(range) => Ok(range),
            None => Err(EngineError::IndexOutOfBounds),
        }
    }
}

} // verus!
