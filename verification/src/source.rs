//! Byte sources and partition planning over any of them.
//!
//! A source that can show all of its bytes as one slice is planned by the
//! slice scanner; any other is searched through a bounded buffer. Both give
//! the same ranges.

use crate::error::SourceError;
use crate::framing::{boundary_past, search_start, BoundaryScanner, Framing, FramingStrategy};
use crate::ranges::{
    cut_points, framed_partition, framed_points, ideal_target, int_offsets, int_ranges,
    law_partition_caps_at_len, lemma_ideal_target, lemma_no_points_past_end, partition, prepend,
    proportional_target, ranges_between, ranges_from_boundaries,
};
use crate::scanner::{
    cut_at_record, find_partition_boundaries_pattern, lemma_cuts, lemma_record_end, record_end,
};
use crate::search::{
    find_pattern_in_slice, first_from, lemma_first_from_absent, lemma_first_from_found,
    lemma_first_from_is_first, occurs_at,
};
use vstd::prelude::*;

verus! {

/// Default scan buffer: one mebibyte.
pub const DEFAULT_SCAN_BUFFER_BYTES: usize = 1024 * 1024;

/// Default window of a windowed mapping: 64 mebibytes.
pub const DEFAULT_WINDOW_BYTES: usize = 64 * 1024 * 1024;

/// Smallest accepted window: one unit of mapping alignment.
pub const MIN_WINDOW_BYTES: usize = 65536;

/// A random-access, read-only byte source.
pub trait ByteSource: Send + Sync {
    /// The bytes of the source; none unless the source says which.
    open spec fn bytes(&self) -> Seq<u8> {
        Seq::empty()
    }

    /// A read may fail in this way; in any way unless the source says how.
    open spec fn read_fails(&self, error: SourceError) -> bool {
        true
    }

    /// Total size of the source in bytes.
    fn len(&self) -> (n: usize)
        ensures
            n == self.bytes().len(),
    ;

    /// Copy up to `out.len()` bytes from `offset` on, and return how many.
    ///
    /// Fewer may come than were asked for; none means that the offset is at or
    /// past the end, or that none were asked for.
    fn read_at(&self, offset: usize, out: &mut [u8]) -> (r: Result<usize, SourceError>)
        ensures
            final(out)@.len() == old(out)@.len(),
            match r {
                Ok(n) => {
                    &&& n <= old(out)@.len()
                    &&& n > 0 ==> offset + n <= self.bytes().len()
                    &&& n == 0 <==> (old(out)@.len() == 0 || offset >= self.bytes().len())
                    &&& forall|i: int|
                        0 <= i < n ==> #[trigger] final(out)@[i] == self.bytes()[offset + i]
                    &&& forall|i: int|
                        n <= i < old(out)@.len() ==> #[trigger] final(out)@[i] == old(out)@[i]
                },
                Err(e) => self.read_fails(e),
            },
    ;

    /// The whole source as a slice, where it can show one.
    fn as_slice(&self) -> (r: Option<&[u8]>)
        ensures
            r matches Some(s) ==> s@ == self.bytes(),
    ;

    /// Whether the source is empty.
    fn is_empty(&self) -> (r: bool)
        ensures
            r == (self.bytes().len() == 0),
    {
        self.len() == 0
    }
}

/// A source over bytes in memory.
#[derive(Debug, Clone, Copy)]
pub struct SliceSource<'a> {
    pub data: &'a [u8],
}

impl<'a> ByteSource for SliceSource<'a> {
    open spec fn bytes(&self) -> Seq<u8> {
        self.data@
    }

    open spec fn read_fails(&self, error: SourceError) -> bool {
        false
    }

    fn len(&self) -> (n: usize) {
        self.data.len()
    }

    fn read_at(&self, offset: usize, out: &mut [u8]) -> (r: Result<usize, SourceError>) {
        let len: usize = self.data.len();
        if out.len() == 0 || offset >= len {
            return Ok(0);
        }
        let room: usize = len - offset;
        let n: usize = if out.len() < room {
            out.len()
        } else {
            room
        };
        let mut i: usize = 0;
        while i < n
            invariant
                i <= n <= out@.len(),
                out@.len() == old(out)@.len(),
                offset + n <= len == self.data@.len(),
                forall|j: int| 0 <= j < i ==> #[trigger] out@[j] == self.data@[offset + j],
                forall|j: int| i <= j < out@.len() ==> #[trigger] out@[j] == old(out)@[j],
            decreases n - i,
        {
            out[i] = self.data[offset + i];
            i = i + 1;
        }
        Ok(n)
    }

    fn as_slice(&self) -> (r: Option<&[u8]>)
        ensures
            r == Some(self.data),
    {
        Some(self.data)
    }
}

/// How the bytes of a file are reached while planning.
#[derive(Clone, Copy, Debug, PartialEq, Eq, Structural)]
pub enum SourceMode {
    /// One mapping of the whole file.
    Mmap,
    /// A bounded mapping that moves.
    Windowed,
    /// Positional reads, without a mapping.
    Pread,
}

impl Default for SourceMode {
    fn default() -> (r: Self)
        ensures
            r == SourceMode::Mmap,
    {
        SourceMode::Mmap
    }
}

impl SourceMode {
    /// The name used in manifests and on the command line.
    pub open spec fn name(self) -> Seq<char> {
        match self {
            SourceMode::Mmap => "mmap"@,
            SourceMode::Windowed => "windowed"@,
            SourceMode::Pread => "pread"@,
        }
    }

    /// The name used in manifests and on the command line.
    pub fn as_str(self) -> (r: &'static str)
        ensures
            r@ == self.name(),
    {
        match self {
            SourceMode::Mmap => "mmap",
            SourceMode::Windowed => "windowed",
            SourceMode::Pread => "pread",
        }
    }
}

/// Parameters of planning a file.
#[derive(Clone, Copy, Debug, PartialEq, Eq, Structural)]
pub struct PlannerOptions {
    /// How the bytes are reached.
    pub mode: SourceMode,
    /// Window of [`SourceMode::Windowed`].
    pub window_bytes: usize,
    /// Buffer of the buffered search; raised to the length of the delimiter
    /// where it is smaller.
    pub scan_buffer_bytes: usize,
}

impl Default for PlannerOptions {
    fn default() -> (r: Self)
        ensures
            r.mode == SourceMode::Mmap,
            r.window_bytes == DEFAULT_WINDOW_BYTES,
            r.scan_buffer_bytes == DEFAULT_SCAN_BUFFER_BYTES,
    {
        PlannerOptions {
            mode: SourceMode::Mmap,
            window_bytes: DEFAULT_WINDOW_BYTES,
            scan_buffer_bytes: DEFAULT_SCAN_BUFFER_BYTES,
        }
    }
}

impl PlannerOptions {
    /// Default sizes for the given mode.
    pub fn new(mode: SourceMode) -> (r: Self)
        ensures
            r.mode == mode,
            r.window_bytes == DEFAULT_WINDOW_BYTES,
            r.scan_buffer_bytes == DEFAULT_SCAN_BUFFER_BYTES,
    {
        PlannerOptions {
            mode,
            window_bytes: DEFAULT_WINDOW_BYTES,
            scan_buffer_bytes: DEFAULT_SCAN_BUFFER_BYTES,
        }
    }

    /// The same options with another window.
    pub fn with_window_bytes(self, window_bytes: usize) -> (r: Self)
        ensures
            r == (PlannerOptions { window_bytes, ..self }),
    {
        PlannerOptions {
            mode: self.mode,
            window_bytes,
            scan_buffer_bytes: self.scan_buffer_bytes,
        }
    }

    /// The same options with another scan buffer.
    pub fn with_scan_buffer_bytes(self, scan_buffer_bytes: usize) -> (r: Self)
        ensures
            r == (PlannerOptions { scan_buffer_bytes, ..self }),
    {
        PlannerOptions { mode: self.mode, window_bytes: self.window_bytes, scan_buffer_bytes }
    }
}

/// The view to map so that `offset` is in it: it starts at a multiple of
/// [`MIN_WINDOW_BYTES`], and it is as long as the window or reaches the end of
/// the file.
pub fn window_at(offset: usize, file_len: usize, window_bytes: usize) -> (view: (usize, usize))
    requires
        offset < file_len,
        window_bytes >= MIN_WINDOW_BYTES,
    ensures
        view.0 == offset - offset % MIN_WINDOW_BYTES,
        view.1 == if window_bytes < file_len - view.0 {
            window_bytes as int
        } else {
            file_len - view.0
        },
        view.0 <= offset < view.0 + view.1,
{
    let start: usize = offset - offset % MIN_WINDOW_BYTES;
    let rest: usize = file_len - start;
    (
        start,
        if window_bytes < rest {
            window_bytes
        } else {
            rest
        },
    )
}

/// Fill the first `want` bytes of `buffer` from `offset` on, however short the
/// reads are that the source serves.
pub fn fill_buffer<S: ByteSource>(
    source: &S,
    offset: usize,
    buffer: &mut [u8],
    want: usize,
) -> (r: Result<(), SourceError>)
    requires
        want <= old(buffer)@.len(),
        offset + want <= source.bytes().len(),
    ensures
        final(buffer)@.len() == old(buffer)@.len(),
        match r {
            Ok(_) => final(buffer)@.take(want as int) == source.bytes().subrange(
                offset as int,
                offset + want,
            ),
            Err(e) => source.read_fails(e),
        },
{
    let mut filled: usize = 0;
    let len: usize = source.len();
    while filled < want
        invariant
            filled <= want <= buffer@.len(),
            buffer@.len() == old(buffer)@.len(),
            offset + want <= len == source.bytes().len(),
            forall|i: int| 0 <= i < filled ==> #[trigger] buffer@[i] == source.bytes()[offset + i],
        decreases want - filled,
    {
        let ghost before = buffer@;
        let (head, rest) = buffer.split_at_mut(filled);
        let (window, tail) = rest.split_at_mut(want - filled);
        let read: usize = match source.read_at(offset + filled, window) {
            Ok(n) => n,
            Err(e) => {
                return Err(e);
            },
        };
        proof {
            assert forall|i: int| 0 <= i < filled + read implies #[trigger] buffer@[i]
                == source.bytes()[offset + i] by {
                if i < filled {
                    assert(buffer@[i] == before[i]);
                }
            }
        }
        filled = filled + read;
    }
    proof {
        assert(buffer@.take(want as int) =~= source.bytes().subrange(offset as int, offset + want));
    }
    Ok(())
}

/// First position of `delimiter` at or after `from`, found through `buffer`.
///
/// Successive buffers overlap by one byte less than the delimiter, so that a
/// delimiter across two of them is seen.
pub fn find_pattern_from<S: ByteSource>(
    source: &S,
    from: usize,
    delimiter: &[u8],
    buffer: &mut [u8],
) -> (r: Result<Option<usize>, SourceError>)
    requires
        delimiter@.len() > 0,
        old(buffer)@.len() > 0,
        old(buffer)@.len() >= delimiter@.len() || source.bytes().len() < delimiter@.len(),
    ensures
        final(buffer)@.len() == old(buffer)@.len(),
        match r {
            Ok(Some(at)) => first_from(source.bytes(), delimiter@, from as int) == Some(at as int),
            Ok(None) => first_from(source.bytes(), delimiter@, from as int) is None,
            Err(e) => source.read_fails(e),
        },
{
    let file_len: usize = source.len();
    let dlen: usize = delimiter.len();
    let blen: usize = buffer.len();
    let ghost bytes = source.bytes();
    let mut offset: usize = from;
    while offset < file_len
        invariant
            file_len == bytes.len(),
            bytes == source.bytes(),
            dlen == delimiter@.len() > 0,
            blen == buffer@.len() == old(buffer)@.len() > 0,
            blen >= dlen || file_len < dlen,
            from <= offset,
            forall|q: int| from <= q < offset ==> !occurs_at(bytes, delimiter@, q),
        decreases file_len - offset,
    {
        let want: usize = if blen < file_len - offset {
            blen
        } else {
            file_len - offset
        };
        match fill_buffer(source, offset, buffer, want) {
            Ok(_) => {},
            Err(e) => {
                return Err(e);
            },
        }
        let window = vstd::slice::slice_subrange(buffer, 0, want);
        proof {
            assert(window@ =~= bytes.subrange(offset as int, offset + want));
            lemma_first_from_is_first(window@, delimiter@, 0);
            assert forall|q: int|
                offset <= q && q + dlen <= offset + want implies #[trigger] occurs_at(
                bytes,
                delimiter@,
                q,
            ) == occurs_at(window@, delimiter@, q - offset) by {
                assert(bytes.subrange(q, q + dlen) =~= window@.subrange(
                    q - offset,
                    q - offset + dlen,
                ));
            }
        }
        if let Some(position) = find_pattern_in_slice(window, delimiter) {
            proof {
                assert forall|q: int| from <= q < offset + position implies !occurs_at(
                    bytes,
                    delimiter@,
                    q,
                ) by {
                    if q >= offset {
                        assert(!occurs_at(window@, delimiter@, q - offset));
                    }
                }
                assert(occurs_at(bytes, delimiter@, offset + position));
                lemma_first_from_found(
                    bytes,
                    delimiter@,
                    from as int,
                    offset + position,
                );
            }
            return Ok(Some(offset + position));
        }
        if want == file_len - offset {
            proof {
                assert forall|q: int| from <= q implies !occurs_at(bytes, delimiter@, q) by {
                    if q >= offset && occurs_at(bytes, delimiter@, q) {
                        assert(occurs_at(window@, delimiter@, q - offset));
                    }
                }
                lemma_first_from_absent(bytes, delimiter@, from as int);
            }
            return Ok(None);
        }
        let advance: usize = if want >= dlen {
            want - (dlen - 1)
        } else {
            1
        };
        proof {
            assert forall|q: int| from <= q < offset + advance implies !occurs_at(
                bytes,
                delimiter@,
                q,
            ) by {
                if q >= offset && occurs_at(bytes, delimiter@, q) {
                    assert(occurs_at(window@, delimiter@, q - offset));
                }
            }
        }
        offset = offset + advance;
    }
    proof {
        assert forall|q: int| from <= q implies !occurs_at(bytes, delimiter@, q) by {}
        lemma_first_from_absent(bytes, delimiter@, from as int);
    }
    Ok(None)
}

/// Partition boundaries of any byte source.
///
/// The ranges of [`find_partition_boundaries_pattern`] on the source's bytes.
/// The scan buffer is raised to the length of the delimiter where it is
/// smaller.
pub fn plan_partition_boundaries<S: ByteSource>(
    source: &S,
    num_partitions: usize,
    delimiter: &[u8],
    scan_buffer_bytes: usize,
) -> (r: Result<Vec<(usize, usize)>, SourceError>)
    requires
        delimiter@.len() > 0,
    ensures
        match r {
            Ok(ranges) => int_ranges(ranges@) == partition(
                source.bytes().len() as int,
                num_partitions as int,
                cut_at_record(source.bytes(), delimiter@),
            ),
            Err(e) => source.read_fails(e),
        },
{
    if let Some(data) = source.as_slice() {
        return Ok(find_partition_boundaries_pattern(data, num_partitions, delimiter));
    }
    let file_len: usize = source.len();
    if file_len == 0 || num_partitions == 0 {
        let none: Vec<(usize, usize)> = Vec::new();
        proof {
            assert(int_ranges(none@) =~= Seq::empty());
        }
        return Ok(none);
    }
    let dlen: usize = delimiter.len();
    let n: usize = if num_partitions < file_len {
        num_partitions
    } else {
        file_len
    };
    let buffer_len: usize = if scan_buffer_bytes < dlen {
        dlen
    } else {
        scan_buffer_bytes
    };
    let mut buffer: Vec<u8> = vec![0u8; buffer_len];
    let mut boundaries: Vec<usize> = Vec::new();
    let mut last: usize = 0;
    let mut i: usize = 1;
    let ghost bytes = source.bytes();
    let ghost cut = cut_at_record(bytes, delimiter@);
    let ghost all = cut_points(file_len as int, n as int, 1, 0, cut);
    proof {
        lemma_cuts(bytes, delimiter@);
        if num_partitions >= file_len {
            law_partition_caps_at_len(file_len as int, num_partitions as int, cut);
        }
        assert(int_offsets(boundaries@) + all =~= all);
    }
    while i < n
        invariant
            1 <= i <= n,
            0 < file_len == bytes.len(),
            bytes == source.bytes(),
            0 < dlen == delimiter@.len() <= buffer@.len(),
            last <= file_len,
            cut == cut_at_record(bytes, delimiter@),
            int_offsets(boundaries@) + cut_points(
                file_len as int,
                n as int,
                i as int,
                last as int,
                cut,
            ) == all,
        decreases n - i,
    {
        let target: usize = proportional_target(file_len, i, n);
        if target > last {
            proof {
                lemma_record_end(bytes, delimiter@, target as int);
                lemma_first_from_is_first(bytes, delimiter@, target as int);
            }
            let boundary: usize = match find_pattern_from(
                source,
                target,
                delimiter,
                buffer.as_mut_slice(),
            ) {
                Ok(Some(at)) => at + dlen,
                Ok(None) => file_len,
                Err(e) => {
                    return Err(e);
                },
            };
            let ghost before = boundaries@;
            boundaries.push(boundary);
            proof {
                assert(boundary == cut(target as int));
                let rest = cut_points(file_len as int, n as int, i + 1, boundary as int, cut);
                assert(int_offsets(boundaries@) =~= int_offsets(before) + seq![boundary as int]);
                assert(int_offsets(before) + (seq![boundary as int] + rest) =~= int_offsets(
                    boundaries@,
                ) + rest);
            }
            last = boundary;
        }
        i = i + 1;
    }
    proof {
        assert(int_offsets(boundaries@) + Seq::<int>::empty() =~= int_offsets(boundaries@));
    }
    Ok(ranges_from_boundaries(file_len, boundaries.as_slice()))
}

/// The ranges of a strategy over a source: it is asked for the boundary after
/// each ideal target.
pub open spec fn strategy_ranges<F: FramingStrategy>(
    strategy: &F,
    bytes: Seq<u8>,
    num_partitions: int,
) -> Result<Seq<(int, int)>, SourceError> {
    framed_partition(
        bytes.len() as int,
        num_partitions,
        |last: int, target: int| strategy.boundary(bytes, last, target),
    )
}

/// No delimiter straddles one of the ideal targets of `n` parts.
pub open spec fn targets_unstraddled(bytes: Seq<u8>, n: int, delimiter: Seq<u8>) -> bool {
    forall|i: int, p: int|
        0 < i < n && #[trigger] occurs_at(bytes, delimiter, p) ==> !(p < #[trigger] ideal_target(
            bytes.len() as int,
            n,
            i,
        ) < p + delimiter.len())
}

/// Law: records that end in a delimiter are planned alike whether the
/// delimiter is given as such or as a framing, where no delimiter straddles a
/// target. A delimiter of one byte straddles none.
pub proof fn law_delimiter_framing_agrees(bytes: Seq<u8>, num_partitions: int, delimiter: Seq<u8>)
    requires
        delimiter.len() > 0,
        0 <= num_partitions,
        delimiter.len() == 1 || targets_unstraddled(
            bytes,
            if num_partitions < bytes.len() {
                num_partitions
            } else {
                bytes.len() as int
            },
            delimiter,
        ),
    ensures
        framed_partition(
            bytes.len() as int,
            num_partitions,
            |last: int, target: int|
                boundary_past(Framing::Delimiter(delimiter), bytes, last, target),
        ) == Ok::<Seq<(int, int)>, SourceError>(
            partition(bytes.len() as int, num_partitions, cut_at_record(bytes, delimiter)),
        ),
{
    let len = bytes.len() as int;
    let cut = cut_at_record(bytes, delimiter);
    if len > 0 && num_partitions > 0 {
        lemma_cuts(bytes, delimiter);
        let n = if num_partitions < len {
            num_partitions
        } else {
            law_partition_caps_at_len(len, num_partitions, cut);
            len
        };
        lemma_delimiter_points(bytes, n, 1, 0, delimiter);
    }
}

proof fn lemma_delimiter_points(
    bytes: Seq<u8>,
    n: int,
    i: int,
    last: int,
    delimiter: Seq<u8>,
)
    requires
        delimiter.len() > 0,
        0 < bytes.len(),
        1 <= i <= n,
        0 <= last,
        delimiter.len() == 1 || targets_unstraddled(bytes, n, delimiter),
    ensures
        framed_points(
            bytes.len() as int,
            n,
            i,
            last,
            |last: int, target: int|
                boundary_past(Framing::Delimiter(delimiter), bytes, last, target),
        ) == Ok::<Seq<int>, SourceError>(
            cut_points(bytes.len() as int, n, i, last, cut_at_record(bytes, delimiter)),
        ),
    decreases n - i,
{
    let len = bytes.len() as int;
    if i < n {
        lemma_ideal_target(len, n, i);
        let target = ideal_target(len, n, i);
        if target <= last {
            lemma_delimiter_points(bytes, n, i + 1, last, delimiter);
        } else {
            lemma_record_end(bytes, delimiter, target);
            let end = record_end(bytes, delimiter, target);
            lemma_delimiter_points(bytes, n, i + 1, end, delimiter);
            let start = search_start(delimiter.len() as int, last, target);
            lemma_first_from_is_first(bytes, delimiter, start);
            lemma_first_from_is_first(bytes, delimiter, target);
            assert(first_from(bytes, delimiter, start) == first_from(bytes, delimiter, target)) by {
                if let Some(at) = first_from(bytes, delimiter, start) {
                    assert(occurs_at(bytes, delimiter, at));
                    assert(at >= target);
                }
                if let Some(at) = first_from(bytes, delimiter, target) {
                    assert(occurs_at(bytes, delimiter, at));
                }
            }
            if first_from(bytes, delimiter, target) is None {
                lemma_no_points_past_end(len, n, i + 1, cut_at_record(bytes, delimiter));
                assert(seq![len] + Seq::<int>::empty() =~= seq![len]);
            }
        }
    }
}

/// Partition boundaries of any byte source under any framing.
///
/// Each target moves on to the smallest record boundary past it. Where a
/// delimiter straddles a target, that is the end of this delimiter.
/// The scan buffer is raised to what the framing's scanner needs.
pub fn plan_partition_boundaries_with<S: ByteSource, F: FramingStrategy>(
    source: &S,
    num_partitions: usize,
    strategy: &F,
    scan_buffer_bytes: usize,
) -> (r: Result<Vec<(usize, usize)>, SourceError>)
    requires
        strategy.valid(),
    ensures
        match r {
            Ok(ranges) => strategy_ranges(strategy, source.bytes(), num_partitions as int) == Ok::<
                Seq<(int, int)>,
                SourceError,
            >(int_ranges(ranges@)),
            Err(e) => strategy_ranges(strategy, source.bytes(), num_partitions as int) == Err::<
                Seq<(int, int)>,
                SourceError,
            >(e) || source.read_fails(e),
        },
{
    let file_len: usize = source.len();
    if file_len == 0 || num_partitions == 0 {
        let none: Vec<(usize, usize)> = Vec::new();
        proof {
            assert(int_ranges(none@) =~= Seq::empty());
        }
        return Ok(none);
    }
    let n: usize = if num_partitions < file_len {
        num_partitions
    } else {
        file_len
    };
    let needed: usize = strategy.minimum_buffer_bytes();
    let buffer_len: usize = if scan_buffer_bytes < needed {
        needed
    } else {
        scan_buffer_bytes
    };
    let mut buffer: Vec<u8> = vec![0u8; if buffer_len == 0 { 1 } else { buffer_len }];
    let ghost bytes = source.bytes();
    let ghost cut = |last: int, target: int| strategy.boundary(bytes, last, target);
    let ghost all = framed_points(file_len as int, n as int, 1, 0, cut);
    let mut scanner = strategy.scanner(buffer.as_mut_slice());
    let mut boundaries: Vec<usize> = Vec::new();
    let mut last: usize = 0;
    let mut i: usize = 1;
    proof {
        assert(scanner.ready(bytes));
        assert(prepend(int_offsets(boundaries@), all) == all) by {
            if let Ok(points) = all {
                assert(int_offsets(boundaries@) + points =~= points);
            }
        }
    }
    while i < n
        invariant_except_break
            1 <= i <= n,
            0 < file_len == bytes.len(),
            bytes == source.bytes(),
            scanner.ready(bytes),
            scanner.floor() <= last <= file_len,
            cut == (|last: int, target: int| strategy.boundary(bytes, last, target)),
            forall|f: int|
                last <= f ==> #[trigger] scanner.answer(bytes, f) == strategy.boundary(
                    bytes,
                    last as int,
                    f,
                ),
            forall|l: int, f: int|
                last <= f ==> #[trigger] scanner.later(bytes, l, f) == strategy.boundary(
                    bytes,
                    l,
                    f,
                ),
            strategy_ranges(strategy, bytes, num_partitions as int) == (match all {
                Ok(points) => Ok(ranges_between(file_len as int, 0, points)),
                Err(e) => Err(e),
            }),
            prepend(
                int_offsets(boundaries@),
                framed_points(file_len as int, n as int, i as int, last as int, cut),
            ) == all,
            i >= n ==> all == Ok::<Seq<int>, SourceError>(int_offsets(boundaries@)),
        ensures
            all == Ok::<Seq<int>, SourceError>(int_offsets(boundaries@)),
        decreases n - i,
    {
        let target: usize = proportional_target(file_len, i, n);
        if target > last {
            let ghost before = boundaries@;
            match scanner.boundary_after(source, target) {
                Ok(Some(b)) => {
                    boundaries.push(b);
                    proof {
                        let rest = framed_points(file_len as int, n as int, i + 1, b as int, cut);
                        assert(int_offsets(boundaries@) =~= int_offsets(before) + seq![b as int]);
                        if let Ok(points) = rest {
                            assert(int_offsets(before) + (seq![b as int] + points) =~= int_offsets(
                                boundaries@,
                            ) + points);
                        }
                    }
                    last = b;
                },
                Ok(None) => {
                    boundaries.push(file_len);
                    proof {
                        assert(int_offsets(boundaries@) =~= int_offsets(before) + seq![
                            file_len as int,
                        ]);
                    }
                    break;
                },
                Err(e) => {
                    return Err(e);
                },
            }
        }
        i = i + 1;
        proof {
            if i >= n {
                assert(int_offsets(boundaries@) + Seq::<int>::empty() =~= int_offsets(boundaries@));
            }
        }
    }
    Ok(ranges_from_boundaries(file_len, boundaries.as_slice()))
}

} // verus!
