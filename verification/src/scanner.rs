//! Chunking and partitioning of a slice at record delimiters.

use crate::ranges::{
    cut_points, cuts_forward, inner_ends, int_offsets, int_ranges, law_partition_caps_at_len,
    law_partition_covers, lemma_tiles_cons, lemma_tiles_ordered, partition, proportional_target,
    ranges_from_boundaries, tiles,
};
use crate::search::{find_pattern_after, first_from, lemma_first_from_is_first, occurs_at};
use vstd::arithmetic::div_mod::{lemma_fundamental_div_mod, lemma_fundamental_div_mod_converse};
use vstd::prelude::*;

verus! {

/// A step of zero bytes counts as one byte.
pub open spec fn step_of(chunk_size: int) -> int {
    if chunk_size == 0 {
        1
    } else {
        chunk_size
    }
}

/// Where the record that holds or follows `target` ends: after the first
/// delimiter that starts at or after `target`, or at the end of the data.
pub open spec fn record_end(data: Seq<u8>, delimiter: Seq<u8>, target: int) -> int {
    match first_from(data, delimiter, target) {
        Some(at) => at + delimiter.len(),
        None => data.len() as int,
    }
}

/// Where a chunk that starts at `start` ends.
pub open spec fn chunk_end(data: Seq<u8>, chunk_size: int, delimiter: Seq<u8>, start: int) -> int {
    if start + step_of(chunk_size) >= data.len() {
        data.len() as int
    } else {
        record_end(data, delimiter, start + step_of(chunk_size))
    }
}

/// The chunks of `data` from `start` on.
pub open spec fn chunk_ranges(
    data: Seq<u8>,
    chunk_size: int,
    delimiter: Seq<u8>,
    start: int,
) -> Seq<(int, int)>
    decreases data.len() - start,
        when 0 <= start && 0 <= chunk_size && delimiter.len() > 0
{
    if start >= data.len() {
        Seq::empty()
    } else {
        proof {
            lemma_chunk_end(data, chunk_size, delimiter, start);
        }
        seq![(start, chunk_end(data, chunk_size, delimiter, start))] + chunk_ranges(
            data,
            chunk_size,
            delimiter,
            chunk_end(data, chunk_size, delimiter, start),
        )
    }
}

/// A complete delimiter ends at `end`.
pub open spec fn ends_with_delimiter(data: Seq<u8>, delimiter: Seq<u8>, end: int) -> bool {
    occurs_at(data, delimiter, end - delimiter.len())
}

/// A record end lies past its target and inside the data; short of the end of
/// the data it follows a complete delimiter.
pub proof fn lemma_record_end(data: Seq<u8>, delimiter: Seq<u8>, target: int)
    requires
        0 <= target <= data.len(),
        delimiter.len() > 0,
    ensures
        target <= record_end(data, delimiter, target) <= data.len(),
        target < data.len() ==> target < record_end(data, delimiter, target),
        record_end(data, delimiter, target) < data.len() ==> ends_with_delimiter(
            data,
            delimiter,
            record_end(data, delimiter, target),
        ),
{
    lemma_first_from_is_first(data, delimiter, target);
}

/// A chunk holds at least one byte, and at least a full step unless the data
/// ends first.
pub proof fn lemma_chunk_end(data: Seq<u8>, chunk_size: int, delimiter: Seq<u8>, start: int)
    requires
        0 <= start < data.len(),
        0 <= chunk_size,
        delimiter.len() > 0,
    ensures
        start < chunk_end(data, chunk_size, delimiter, start) <= data.len(),
        chunk_end(data, chunk_size, delimiter, start) < data.len() ==> start + step_of(chunk_size)
            < chunk_end(data, chunk_size, delimiter, start) && ends_with_delimiter(
            data,
            delimiter,
            chunk_end(data, chunk_size, delimiter, start),
        ),
{
    if start + step_of(chunk_size) < data.len() {
        lemma_record_end(data, delimiter, start + step_of(chunk_size));
    }
}

/// A tiling has no more ranges than bytes, and at least one if it has a byte.
pub proof fn lemma_tiles_len(ranges: Seq<(int, int)>, from: int, to: int)
    requires
        tiles(ranges, from, to),
    ensures
        ranges.len() <= to - from,
        from < to ==> ranges.len() > 0,
    decreases ranges.len(),
{
    if ranges.len() > 0 {
        let rest = ranges.drop_first();
        assert forall|i: int| 0 <= i < rest.len() implies rest[i] == ranges[i + 1] by {}
        if rest.len() > 0 {
            assert(ranges[0].1 == ranges[1].0);
            assert(rest.last() == ranges.last());
        }
        assert(tiles(rest, ranges[0].1, to)) by {
            assert forall|i: int, j: int| 0 <= i && j == i + 1 && j < rest.len() implies (
            #[trigger] rest[i]).1 == (#[trigger] rest[j]).0 by {
                assert(ranges[i + 1].1 == ranges[j + 1].0);
            }
            assert forall|i: int| 0 <= i < rest.len() implies (#[trigger] rest[i]).0
                < rest[i].1 by {
                assert(ranges[i + 1].0 < ranges[i + 1].1);
            }
        }
        lemma_tiles_len(rest, ranges[0].1, to);
    }
}

/// Law: the chunks cover the data exactly, every chunk but the last ends
/// right after a complete delimiter and is longer than the chunk size.
pub proof fn law_chunks_cover(data: Seq<u8>, chunk_size: int, delimiter: Seq<u8>, start: int)
    requires
        0 <= start <= data.len(),
        0 <= chunk_size,
        delimiter.len() > 0,
    ensures
        tiles(chunk_ranges(data, chunk_size, delimiter, start), start, data.len() as int),
        inner_ends(
            chunk_ranges(data, chunk_size, delimiter, start),
            |end: int| ends_with_delimiter(data, delimiter, end),
        ),
        forall|i: int|
            0 <= i < chunk_ranges(data, chunk_size, delimiter, start).len() - 1 ==> (
            #[trigger] chunk_ranges(data, chunk_size, delimiter, start)[i]).1 - chunk_ranges(
                data,
                chunk_size,
                delimiter,
                start,
            )[i].0 > step_of(chunk_size),
    decreases data.len() - start,
{
    if start < data.len() {
        lemma_chunk_end(data, chunk_size, delimiter, start);
        let end = chunk_end(data, chunk_size, delimiter, start);
        law_chunks_cover(data, chunk_size, delimiter, end);
        let rest = chunk_ranges(data, chunk_size, delimiter, end);
        let all = chunk_ranges(data, chunk_size, delimiter, start);
        lemma_tiles_cons(start, end, rest, data.len() as int);
        lemma_tiles_ordered(rest, end, data.len() as int);
        assert forall|i: int| 0 <= i < all.len() - 1 implies ends_with_delimiter(
            data,
            delimiter,
            (#[trigger] all[i]).1,
        ) && all[i].1 - all[i].0 > step_of(chunk_size) by {
            if i > 0 {
                assert(all[i] == rest[i - 1]);
            } else {
                assert(all[1] == rest[0]);
            }
        }
    }
}

/// The end of the chunk that starts at `start`.
fn scan_chunk_end(data: &[u8], chunk_size: usize, delimiter: &[u8], start: usize) -> (end: usize)
    requires
        start < data@.len(),
        delimiter@.len() > 0,
    ensures
        end == chunk_end(data@, chunk_size as int, delimiter@, start as int),
        start < end <= data@.len(),
{
    let len: usize = data.len();
    let step: usize = if chunk_size == 0 {
        1
    } else {
        chunk_size
    };
    proof {
        lemma_chunk_end(data@, chunk_size as int, delimiter@, start as int);
    }
    if step >= len - start {
        return len;
    }
    match find_pattern_after(data, delimiter, start + step) {
        Some(at) => at + delimiter.len(),
        None => len,
    }
}

/// Chunk boundaries of `data` at a multi-byte `delimiter`.
///
/// Sequential chunks that cover the whole input. Each chunk reaches at least
/// `chunk_size` bytes (zero counts as one) and then on to the end of the next
/// complete delimiter; the last chunk ends with the data.
pub fn find_chunk_boundaries_pattern(
    data: &[u8],
    chunk_size: usize,
    delimiter: &[u8],
) -> (chunks: Vec<(usize, usize)>)
    requires
        delimiter@.len() > 0,
    ensures
        int_ranges(chunks@) == chunk_ranges(data@, chunk_size as int, delimiter@, 0),
{
    let len: usize = data.len();
    let mut chunks: Vec<(usize, usize)> = Vec::new();
    let mut start: usize = 0;
    let ghost all = chunk_ranges(data@, chunk_size as int, delimiter@, 0);
    proof {
        assert(int_ranges(chunks@) + all =~= all);
    }
    while start < len
        invariant
            start <= len == data@.len(),
            delimiter@.len() > 0,
            int_ranges(chunks@) + chunk_ranges(
                data@,
                chunk_size as int,
                delimiter@,
                start as int,
            ) == all,
        decreases len - start,
    {
        let end: usize = scan_chunk_end(data, chunk_size, delimiter, start);
        let ghost before = chunks@;
        chunks.push((start, end));
        proof {
            let rest = chunk_ranges(data@, chunk_size as int, delimiter@, end as int);
            assert(int_ranges(chunks@) =~= int_ranges(before) + seq![(start as int, end as int)]);
            assert(int_ranges(before) + (seq![(start as int, end as int)] + rest) =~= int_ranges(
                chunks@,
            ) + rest);
        }
        start = end;
    }
    proof {
        assert(int_ranges(chunks@) + Seq::<(int, int)>::empty() =~= int_ranges(chunks@));
    }
    chunks
}

/// Chunk boundaries of `data` at a single delimiter byte; see
/// [`find_chunk_boundaries_pattern`].
pub fn find_chunk_boundaries(data: &[u8], chunk_size: usize, delimiter: u8) -> (chunks: Vec<
    (usize, usize),
>)
    ensures
        int_ranges(chunks@) == chunk_ranges(data@, chunk_size as int, seq![delimiter], 0),
{
    let pattern: [u8; 1] = [delimiter];
    proof {
        assert(pattern@ =~= seq![delimiter]);
    }
    find_chunk_boundaries_pattern(data, chunk_size, pattern.as_slice())
}

/// A lazy cursor over the chunks of a slice at a multi-byte delimiter.
///
/// Each call to `next` yields the chunk that
/// [`find_chunk_boundaries_pattern`] puts at the current position.
#[derive(Debug)]
pub struct PatternChunkCursor<'a, 'p> {
    data: &'a [u8],
    chunk_size: usize,
    delimiter: &'p [u8],
    position: usize,
}

impl<'a, 'p> PatternChunkCursor<'a, 'p> {
    /// The bytes the cursor runs over.
    pub closed spec fn bytes(&self) -> Seq<u8> {
        self.data@
    }

    /// The requested chunk size.
    pub closed spec fn size(&self) -> int {
        self.chunk_size as int
    }

    /// The delimiter pattern.
    pub closed spec fn pattern(&self) -> Seq<u8> {
        self.delimiter@
    }

    /// The offset of the next chunk.
    pub closed spec fn at(&self) -> int {
        self.position as int
    }

    /// The position lies inside the data and the delimiter has a byte.
    #[verifier::type_invariant]
    pub closed spec fn inv(&self) -> bool {
        self.position <= self.data@.len() && self.delimiter@.len() > 0
    }

    /// The ranges of the chunks still to come.
    pub open spec fn remaining(&self) -> Seq<(int, int)> {
        chunk_ranges(self.bytes(), self.size(), self.pattern(), self.at())
    }

    /// A cursor at the start of `data`.
    pub fn new(data: &'a [u8], chunk_size: usize, delimiter: &'p [u8]) -> (cursor: Self)
        requires
            delimiter@.len() > 0,
        ensures
            cursor.bytes() == data@,
            cursor.size() == chunk_size,
            cursor.pattern() == delimiter@,
            cursor.at() == 0,
    {
        PatternChunkCursor { data, chunk_size, delimiter, position: 0 }
    }

    /// Current byte offset.
    pub fn position(&self) -> (r: usize)
        ensures
            r == self.at(),
            r <= self.bytes().len(),
    {
        proof {
            use_type_invariant(self);
        }
        self.position
    }

    /// Length of the data, whether consumed or not.
    pub fn len(&self) -> (r: usize)
        ensures
            r == self.bytes().len(),
    {
        self.data.len()
    }

    /// Whether every chunk has been consumed.
    pub fn is_empty(&self) -> (r: bool)
        ensures
            r == (self.at() == self.bytes().len()),
            r == (self.remaining().len() == 0),
    {
        proof {
            use_type_invariant(self);
            law_chunks_cover(self.bytes(), self.size(), self.pattern(), self.at());
        }
        self.position >= self.data.len()
    }

    /// The next chunk, or `None` once the data is consumed.
    pub fn next(&mut self) -> (r: Option<&'a [u8]>)
        ensures
            final(self).bytes() == old(self).bytes(),
            final(self).size() == old(self).size(),
            final(self).pattern() == old(self).pattern(),
            match r {
                Some(chunk) => {
                    &&& old(self).at() < final(self).at() <= old(self).bytes().len()
                    &&& chunk@ == old(self).bytes().subrange(old(self).at(), final(self).at())
                    &&& old(self).remaining() == seq![(old(self).at(), final(self).at())]
                        + final(self).remaining()
                },
                None => {
                    &&& old(self).at() == old(self).bytes().len()
                    &&& final(self).at() == old(self).at()
                    &&& old(self).remaining() == Seq::<(int, int)>::empty()
                },
            },
    {
        proof {
            use_type_invariant(&*self);
        }
        let start: usize = self.position;
        if start >= self.data.len() {
            return None;
        }
        let end: usize = scan_chunk_end(self.data, self.chunk_size, self.delimiter, start);
        let chunk = vstd::slice::slice_subrange(self.data, start, end);
        self.position = end;
        Some(chunk)
    }

    /// Bounds on the number of chunks still to come.
    pub fn size_hint(&self) -> (r: (usize, Option<usize>))
        ensures
            self.at() == self.bytes().len() ==> r == (0usize, Some(0usize)),
            self.at() < self.bytes().len() ==> r.0 == 1 && r.1 == Some(
                (self.bytes().len() - self.at()) as usize,
            ),
            r.0 <= self.remaining().len() <= r.1->0,
    {
        proof {
            use_type_invariant(self);
            law_chunks_cover(self.bytes(), self.size(), self.pattern(), self.at());
            lemma_tiles_len(self.remaining(), self.at(), self.bytes().len() as int);
        }
        let len: usize = self.data.len();
        if self.position >= len {
            return (0, Some(0));
        }
        (1, Some(len - self.position))
    }

    /// Every chunk still to come.
    pub fn collect(self) -> (chunks: Vec<&'a [u8]>)
        ensures
            chunks@.len() == self.remaining().len(),
            forall|i: int|
                0 <= i < chunks@.len() ==> (#[trigger] chunks@[i])@ == self.bytes().subrange(
                    self.remaining()[i].0,
                    self.remaining()[i].1,
                ),
    {
        let mut cursor = self;
        let mut chunks: Vec<&'a [u8]> = Vec::new();
        let ghost all = self.remaining();
        let ghost mut done: Seq<(int, int)> = Seq::empty();
        proof {
            assert(done + cursor.remaining() =~= all);
        }
        loop
            invariant
                cursor.bytes() == self.bytes(),
                all == self.remaining(),
                done + cursor.remaining() == all,
                chunks@.len() == done.len(),
                forall|i: int|
                    0 <= i < chunks@.len() ==> (#[trigger] chunks@[i])@ == self.bytes().subrange(
                        all[i].0,
                        all[i].1,
                    ),
            ensures
                done == all,
            decreases self.bytes().len() - cursor.at(),
        {
            let ghost before = cursor;
            match cursor.next() {
                Some(chunk) => {
                    proof {
                        let r = (before.at(), cursor.at());
                        assert(done + (seq![r] + cursor.remaining()) =~= done.push(r)
                            + cursor.remaining());
                        assert(all[done.len() as int] == r);
                        done = done.push(r);
                    }
                    chunks.push(chunk);
                },
                None => {
                    proof {
                        assert(done + cursor.remaining() =~= done);
                    }
                    break;
                },
            }
        }
        chunks
    }
}

impl<'a, 'p> Clone for PatternChunkCursor<'a, 'p> {
    fn clone(&self) -> (r: Self)
        ensures
            r == *self,
    {
        proof {
            use_type_invariant(self);
        }
        PatternChunkCursor {
            data: self.data,
            chunk_size: self.chunk_size,
            delimiter: self.delimiter,
            position: self.position,
        }
    }
}

/// A lazy cursor over the chunks of a slice at a single delimiter byte.
///
/// Each call to `next` yields the chunk that [`find_chunk_boundaries`] puts at
/// the current position.
#[derive(Debug)]
pub struct ChunkCursor<'a> {
    data: &'a [u8],
    chunk_size: usize,
    delimiter: u8,
    position: usize,
}

impl<'a> ChunkCursor<'a> {
    /// The bytes the cursor runs over.
    pub closed spec fn bytes(&self) -> Seq<u8> {
        self.data@
    }

    /// The requested chunk size.
    pub closed spec fn size(&self) -> int {
        self.chunk_size as int
    }

    /// The delimiter, as a pattern of one byte.
    pub closed spec fn pattern(&self) -> Seq<u8> {
        seq![self.delimiter]
    }

    /// The offset of the next chunk.
    pub closed spec fn at(&self) -> int {
        self.position as int
    }

    /// The position lies inside the data.
    #[verifier::type_invariant]
    pub closed spec fn inv(&self) -> bool {
        self.position <= self.data@.len()
    }

    /// The ranges of the chunks still to come.
    pub open spec fn remaining(&self) -> Seq<(int, int)> {
        chunk_ranges(self.bytes(), self.size(), self.pattern(), self.at())
    }

    /// A cursor at the start of `data`.
    pub fn new(data: &'a [u8], chunk_size: usize, delimiter: u8) -> (cursor: Self)
        ensures
            cursor.bytes() == data@,
            cursor.size() == chunk_size,
            cursor.pattern() == seq![delimiter],
            cursor.at() == 0,
    {
        ChunkCursor { data, chunk_size, delimiter, position: 0 }
    }

    /// Current byte offset.
    pub fn position(&self) -> (r: usize)
        ensures
            r == self.at(),
            r <= self.bytes().len(),
    {
        proof {
            use_type_invariant(self);
        }
        self.position
    }

    /// Length of the data, whether consumed or not.
    pub fn len(&self) -> (r: usize)
        ensures
            r == self.bytes().len(),
    {
        self.data.len()
    }

    /// Whether every chunk has been consumed.
    pub fn is_empty(&self) -> (r: bool)
        ensures
            r == (self.at() == self.bytes().len()),
            r == (self.remaining().len() == 0),
    {
        proof {
            use_type_invariant(self);
            law_chunks_cover(self.bytes(), self.size(), self.pattern(), self.at());
        }
        self.position >= self.data.len()
    }

    /// The next chunk, or `None` once the data is consumed.
    pub fn next(&mut self) -> (r: Option<&'a [u8]>)
        ensures
            final(self).bytes() == old(self).bytes(),
            final(self).size() == old(self).size(),
            final(self).pattern() == old(self).pattern(),
            match r {
                Some(chunk) => {
                    &&& old(self).at() < final(self).at() <= old(self).bytes().len()
                    &&& chunk@ == old(self).bytes().subrange(old(self).at(), final(self).at())
                    &&& old(self).remaining() == seq![(old(self).at(), final(self).at())]
                        + final(self).remaining()
                },
                None => {
                    &&& old(self).at() == old(self).bytes().len()
                    &&& final(self).at() == old(self).at()
                    &&& old(self).remaining() == Seq::<(int, int)>::empty()
                },
            },
    {
        proof {
            use_type_invariant(&*self);
        }
        let start: usize = self.position;
        if start >= self.data.len() {
            return None;
        }
        let pattern: [u8; 1] = [self.delimiter];
        proof {
            assert(pattern@ =~= seq![self.delimiter]);
        }
        let end: usize = scan_chunk_end(self.data, self.chunk_size, pattern.as_slice(), start);
        let chunk = vstd::slice::slice_subrange(self.data, start, end);
        self.position = end;
        Some(chunk)
    }

    /// Bounds on the number of chunks still to come.
    pub fn size_hint(&self) -> (r: (usize, Option<usize>))
        ensures
            self.at() == self.bytes().len() ==> r == (0usize, Some(0usize)),
            self.at() < self.bytes().len() ==> r.0 == 1 && r.1 == Some(
                (self.bytes().len() - self.at()) as usize,
            ),
            r.0 <= self.remaining().len() <= r.1->0,
    {
        proof {
            use_type_invariant(self);
            law_chunks_cover(self.bytes(), self.size(), self.pattern(), self.at());
            lemma_tiles_len(self.remaining(), self.at(), self.bytes().len() as int);
        }
        let len: usize = self.data.len();
        if self.position >= len {
            return (0, Some(0));
        }
        (1, Some(len - self.position))
    }

    /// Every chunk still to come.
    pub fn collect(self) -> (chunks: Vec<&'a [u8]>)
        ensures
            chunks@.len() == self.remaining().len(),
            forall|i: int|
                0 <= i < chunks@.len() ==> (#[trigger] chunks@[i])@ == self.bytes().subrange(
                    self.remaining()[i].0,
                    self.remaining()[i].1,
                ),
    {
        let mut cursor = self;
        let mut chunks: Vec<&'a [u8]> = Vec::new();
        let ghost all = self.remaining();
        let ghost mut done: Seq<(int, int)> = Seq::empty();
        proof {
            assert(done + cursor.remaining() =~= all);
        }
        loop
            invariant
                cursor.bytes() == self.bytes(),
                all == self.remaining(),
                done + cursor.remaining() == all,
                chunks@.len() == done.len(),
                forall|i: int|
                    0 <= i < chunks@.len() ==> (#[trigger] chunks@[i])@ == self.bytes().subrange(
                        all[i].0,
                        all[i].1,
                    ),
            ensures
                done == all,
            decreases self.bytes().len() - cursor.at(),
        {
            let ghost before = cursor;
            match cursor.next() {
                Some(chunk) => {
                    proof {
                        let r = (before.at(), cursor.at());
                        assert(done + (seq![r] + cursor.remaining()) =~= done.push(r)
                            + cursor.remaining());
                        assert(all[done.len() as int] == r);
                        done = done.push(r);
                    }
                    chunks.push(chunk);
                },
                None => {
                    proof {
                        assert(done + cursor.remaining() =~= done);
                    }
                    break;
                },
            }
        }
        chunks
    }
}

impl<'a> Clone for ChunkCursor<'a> {
    fn clone(&self) -> (r: Self)
        ensures
            r == *self,
    {
        proof {
            use_type_invariant(self);
        }
        ChunkCursor {
            data: self.data,
            chunk_size: self.chunk_size,
            delimiter: self.delimiter,
            position: self.position,
        }
    }
}

/// Number of fixed-size chunks in `file_len` bytes.
pub open spec fn fixed_count(file_len: int, chunk_size: int) -> int {
    (file_len + step_of(chunk_size) - 1) / step_of(chunk_size)
}

/// The range of fixed-size chunk `index`.
pub open spec fn fixed_range(file_len: int, chunk_size: int, index: int) -> (int, int) {
    let start = index * step_of(chunk_size);
    let end = start + step_of(chunk_size);
    (start, if end > file_len { file_len } else { end })
}

/// The count is the number of multiples of the step below the length.
pub proof fn lemma_fixed_count(file_len: int, chunk_size: int)
    requires
        0 <= file_len,
        0 <= chunk_size,
    ensures
        0 <= fixed_count(file_len, chunk_size) <= file_len,
        file_len == 0 <==> fixed_count(file_len, chunk_size) == 0,
        file_len > 0 ==> fixed_count(file_len, chunk_size) == (file_len - 1) / step_of(chunk_size)
            + 1,
        forall|i: int|
            #![trigger i * step_of(chunk_size)]
            0 <= i ==> (i < fixed_count(file_len, chunk_size) <==> i * step_of(chunk_size)
                < file_len),
{
    let s = step_of(chunk_size);
    let n = file_len + s - 1;
    let q = n / s;
    lemma_fundamental_div_mod(n, s);
    let r = n % s;
    assert(n == s * q + r);
    assert(q >= 0 && q <= file_len) by (nonlinear_arith)
        requires
            n == s * q + r,
            n == file_len + s - 1,
            0 <= r < s,
            s >= 1,
            file_len >= 0,
    ;
    if file_len == 0 {
        assert(q == 0) by (nonlinear_arith)
            requires
                s - 1 == s * q + r,
                0 <= r < s,
                s >= 1,
        ;
    } else {
        assert(q > 0) by (nonlinear_arith)
            requires
                n == s * q + r,
                n >= s,
                0 <= r < s,
                s >= 1,
        ;
        assert(file_len - 1 == s * (q - 1) + r) by (nonlinear_arith)
            requires
                n == s * q + r,
                n == file_len + s - 1,
        ;
        lemma_fundamental_div_mod_converse(file_len - 1, s, q - 1, r);
    }
    assert forall|i: int| #![trigger i * s] 0 <= i implies (i < q <==> i * s < file_len) by {
        if i < q {
            assert(i * s < file_len) by (nonlinear_arith)
                requires
                    i <= q - 1,
                    file_len + s - 1 == s * q + r,
                    0 <= r < s,
                    s >= 1,
            ;
        } else {
            assert(i * s >= file_len) by (nonlinear_arith)
                requires
                    i >= q,
                    file_len + s - 1 == s * q + r,
                    0 <= r < s,
                    s >= 1,
            ;
        }
    }
}

/// Law: the fixed-size chunks cover the bytes exactly, and every chunk but the
/// last is one full step long.
pub proof fn law_fixed_chunks_cover(file_len: int, chunk_size: int)
    requires
        0 <= file_len,
        0 <= chunk_size,
    ensures
        tiles(
            Seq::new(
                fixed_count(file_len, chunk_size) as nat,
                |i: int| fixed_range(file_len, chunk_size, i),
            ),
            0,
            file_len,
        ),
        forall|i: int|
            0 <= i < fixed_count(file_len, chunk_size) - 1 ==> (#[trigger] fixed_range(
                file_len,
                chunk_size,
                i,
            )).1 - fixed_range(file_len, chunk_size, i).0 == step_of(chunk_size),
{
    lemma_fixed_count(file_len, chunk_size);
    let s = step_of(chunk_size);
    let n = fixed_count(file_len, chunk_size);
    let ranges = Seq::new(n as nat, |i: int| fixed_range(file_len, chunk_size, i));
    assert forall|i: int| 0 <= i < n implies (#[trigger] ranges[i]).0 < ranges[i].1 by {
        assert(i * s < file_len);
    }
    assert forall|i: int| #![trigger fixed_range(file_len, chunk_size, i)] 0 <= i < n
        - 1 implies fixed_range(file_len, chunk_size, i) == (i * s, (i + 1) * s) by {
        assert((i + 1) * s < file_len);
        assert((i + 1) * s == i * s + s) by (nonlinear_arith);
    }
    assert forall|i: int, j: int| 0 <= i && j == i + 1 && j < ranges.len() implies (
    #[trigger] ranges[i]).1 == (#[trigger] ranges[j]).0 by {
        assert(fixed_range(file_len, chunk_size, i) == (i * s, (i + 1) * s));
    }
    if n > 0 {
        assert(n * s >= file_len);
        assert((n - 1) * s + s == n * s) by (nonlinear_arith);
        assert(0 * s == 0) by (nonlinear_arith);
        assert(ranges.last().1 == file_len);
    }
}

/// Number of fixed-size chunks in `file_len` bytes; a `chunk_size` of 0 counts
/// as 1.
pub fn fixed_chunk_count(file_len: usize, chunk_size: usize) -> (r: usize)
    ensures
        r == fixed_count(file_len as int, chunk_size as int),
{
    proof {
        lemma_fixed_count(file_len as int, chunk_size as int);
    }
    if file_len == 0 {
        return 0;
    }
    let step: usize = if chunk_size == 0 {
        1
    } else {
        chunk_size
    };
    (file_len - 1) / step + 1
}

/// Range of fixed-size chunk `index`, or `None` past the last one.
pub fn fixed_chunk_bounds(file_len: usize, chunk_size: usize, index: usize) -> (r: Option<
    (usize, usize),
>)
    ensures
        match r {
            Some(range) => index < fixed_count(file_len as int, chunk_size as int) && (
                range.0 as int,
                range.1 as int,
            ) == fixed_range(file_len as int, chunk_size as int, index as int),
            None => index >= fixed_count(file_len as int, chunk_size as int),
        },
        r matches Some(range) ==> range.0 < range.1 <= file_len,
{
    if index >= fixed_chunk_count(file_len, chunk_size) {
        return None;
    }
    let step: usize = if chunk_size == 0 {
        1
    } else {
        chunk_size
    };
    proof {
        lemma_fixed_count(file_len as int, chunk_size as int);
        assert(index as int * step_of(chunk_size as int) < file_len);
        assert(index * step >= 0) by (nonlinear_arith)
            requires
                index >= 0,
                step >= 0,
        ;
    }
    let start: usize = index * step;
    let end: usize = if step > file_len - start {
        file_len
    } else {
        start + step
    };
    Some((start, end))
}

/// The cut for a target: the end of the record found from it.
pub open spec fn cut_at_record(data: Seq<u8>, delimiter: Seq<u8>) -> spec_fn(int) -> int {
    |target: int| record_end(data, delimiter, target)
}

/// Cuts move forward and, short of the end of the data, land after a complete
/// delimiter.
pub proof fn lemma_cuts(data: Seq<u8>, delimiter: Seq<u8>)
    requires
        delimiter.len() > 0,
    ensures
        cuts_forward(data.len() as int, cut_at_record(data, delimiter)),
        forall|t: int|
            0 < t < data.len() && #[trigger] cut_at_record(data, delimiter)(t) < data.len()
                ==> ends_with_delimiter(data, delimiter, cut_at_record(data, delimiter)(t)),
{
    assert forall|t: int| 0 < t < data.len() implies {
        &&& t <= #[trigger] record_end(data, delimiter, t) <= data.len()
        &&& record_end(data, delimiter, t) < data.len() ==> ends_with_delimiter(
            data,
            delimiter,
            record_end(data, delimiter, t),
        )
    } by {
        lemma_record_end(data, delimiter, t);
    }
}

/// Law: partitions of a slice cover it exactly, are at most as many as asked
/// for, and every one but the last ends right after a complete delimiter,
/// whichever way targets are cut.
pub proof fn law_slice_partition_covers(data: Seq<u8>, delimiter: Seq<u8>, n: int)
    requires
        delimiter.len() > 0,
        0 < n,
    ensures
        tiles(
            partition(data.len() as int, n, cut_at_record(data, delimiter)),
            0,
            data.len() as int,
        ),
        partition(data.len() as int, n, cut_at_record(data, delimiter)).len() <= n,
        inner_ends(
            partition(data.len() as int, n, cut_at_record(data, delimiter)),
            |end: int| ends_with_delimiter(data, delimiter, end),
        ),
{
    let aligned = |end: int| ends_with_delimiter(data, delimiter, end);
    lemma_cuts(data, delimiter);
    law_partition_covers(data.len() as int, n, cut_at_record(data, delimiter), aligned);
}

/// Cut points of a slice: each target moves on to the end of a record.
fn slice_cuts(data: &[u8], n: usize, delimiter: &[u8]) -> (boundaries: Vec<usize>)
    requires
        0 < n,
        0 < data@.len(),
        0 < delimiter@.len(),
    ensures
        int_offsets(boundaries@) == cut_points(
            data@.len() as int,
            n as int,
            1,
            0,
            cut_at_record(data@, delimiter@),
        ),
{
    let len: usize = data.len();
    let dlen: usize = delimiter.len();
    let mut boundaries: Vec<usize> = Vec::new();
    let mut last: usize = 0;
    let mut i: usize = 1;
    let ghost cut = cut_at_record(data@, delimiter@);
    let ghost all = cut_points(len as int, n as int, 1, 0, cut);
    proof {
        assert(int_offsets(boundaries@) + all =~= all);
    }
    while i < n
        invariant
            1 <= i <= n,
            0 < len == data@.len(),
            0 < dlen == delimiter@.len(),
            last <= len,
            cut == cut_at_record(data@, delimiter@),
            int_offsets(boundaries@) + cut_points(
                len as int,
                n as int,
                i as int,
                last as int,
                cut,
            ) == all,
        decreases n - i,
    {
        let target: usize = proportional_target(len, i, n);
        if target > last {
            proof {
                lemma_record_end(data@, delimiter@, target as int);
            }
            let boundary: usize = match find_pattern_after(data, delimiter, target) {
                Some(at) => at + dlen,
                None => len,
            };
            let ghost before = boundaries@;
            boundaries.push(boundary);
            proof {
                assert(boundary == cut(target as int));
                let rest = cut_points(len as int, n as int, i + 1, boundary as int, cut);
                assert(int_offsets(boundaries@) =~= int_offsets(before) + seq![boundary as int]);
                assert(int_offsets(before) + (seq![boundary as int] + rest) =~= int_offsets(
                    boundaries@,
                ) + rest);
            }
            last = boundary;
        }
        i = i + 1;
    }
    proof {
        assert(int_offsets(boundaries@) + Seq::<int>::empty() =~= int_offsets(boundaries@));
    }
    boundaries
}

/// Partition boundaries of `data` at a single delimiter byte.
///
/// Cut `i` of `num_partitions` aims at `len * i / num_partitions`, rounded
/// down, and moves on to the end of the record found from there. Targets that
/// an earlier cut has passed are dropped, so fewer partitions may come back.
pub fn find_partition_boundaries(data: &[u8], num_partitions: usize, delimiter: u8) -> (partitions:
    Vec<(usize, usize)>)
    ensures
        int_ranges(partitions@) == partition(
            data@.len() as int,
            num_partitions as int,
            cut_at_record(data@, seq![delimiter]),
        ),
{
    let pattern: [u8; 1] = [delimiter];
    proof {
        assert(pattern@ =~= seq![delimiter]);
    }
    find_partition_boundaries_pattern(data, num_partitions, pattern.as_slice())
}

/// Partition boundaries of `data` at a delimiter of one or more bytes, by the
/// rule of [`find_partition_boundaries`].
pub fn find_partition_boundaries_pattern(
    data: &[u8],
    num_partitions: usize,
    delimiter: &[u8],
) -> (partitions: Vec<(usize, usize)>)
    requires
        delimiter@.len() > 0,
    ensures
        int_ranges(partitions@) == partition(
            data@.len() as int,
            num_partitions as int,
            cut_at_record(data@, delimiter@),
        ),
{
    let len: usize = data.len();
    if len == 0 || num_partitions == 0 {
        let none: Vec<(usize, usize)> = Vec::new();
        proof {
            assert(int_ranges(none@) =~= Seq::empty());
        }
        return none;
    }
    let n: usize = if num_partitions < len {
        num_partitions
    } else {
        len
    };
    proof {
        lemma_cuts(data@, delimiter@);
        if num_partitions >= len {
            law_partition_caps_at_len(
                len as int,
                num_partitions as int,
                cut_at_record(data@, delimiter@),
            );
        }
    }
    let boundaries = slice_cuts(data, n, delimiter);
    ranges_from_boundaries(len, boundaries.as_slice())
}

} // verus!
