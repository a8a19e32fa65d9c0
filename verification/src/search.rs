//! Byte and pattern search in slices.

use vstd::prelude::*;
use vstd::std_specs::bits::axiom_u64_trailing_zeros;

verus! {

/// `pattern` occupies the bytes of `haystack` that start at `at`.
pub open spec fn occurs_at(haystack: Seq<u8>, pattern: Seq<u8>, at: int) -> bool {
    &&& 0 <= at
    &&& at + pattern.len() <= haystack.len()
    &&& haystack.subrange(at, at + pattern.len()) == pattern
}

/// The smallest offset at or after `from` at which `pattern` occurs.
pub open spec fn first_from(haystack: Seq<u8>, pattern: Seq<u8>, from: int) -> Option<int>
    decreases haystack.len() + 1 - from,
{
    if from + pattern.len() > haystack.len() {
        None
    } else if occurs_at(haystack, pattern, from) {
        Some(from)
    } else {
        first_from(haystack, pattern, from + 1)
    }
}

/// No two occurrences of `pattern` overlap in `haystack`.
pub open spec fn occurs_apart(haystack: Seq<u8>, pattern: Seq<u8>) -> bool {
    forall|p: int, q: int|
        p < q && #[trigger] occurs_at(haystack, pattern, p) && #[trigger] occurs_at(
            haystack,
            pattern,
            q,
        ) ==> p + pattern.len() <= q
}

/// Law: a pattern that does not end with its own beginning never overlaps
/// itself, whatever the bytes are; a single byte is such a pattern.
pub proof fn law_unbordered_patterns_occur_apart(haystack: Seq<u8>, pattern: Seq<u8>)
    requires
        forall|k: int|
            0 < k < pattern.len() ==> #[trigger] pattern.skip(k) != pattern.take(
                pattern.len() - k,
            ),
    ensures
        occurs_apart(haystack, pattern),
{
    assert forall|p: int, q: int|
        p < q && #[trigger] occurs_at(haystack, pattern, p) && #[trigger] occurs_at(
            haystack,
            pattern,
            q,
        ) implies p + pattern.len() <= q by {
        let k = q - p;
        if k < pattern.len() {
            let first = haystack.subrange(p, p + pattern.len());
            let second = haystack.subrange(q, q + pattern.len());
            assert(pattern.skip(k) =~= pattern.take(pattern.len() - k)) by {
                assert forall|i: int| 0 <= i < pattern.len() - k implies pattern.skip(k)[i]
                    == pattern.take(pattern.len() - k)[i] by {
                    assert(first[k + i] == haystack[q + i]);
                    assert(second[i] == haystack[q + i]);
                }
            }
        }
    }
}

/// Law: a pattern occurs where each of its bytes stands, in turn, and nowhere
/// else.
pub proof fn law_occurrence_is_bytewise(haystack: Seq<u8>, pattern: Seq<u8>, at: int)
    ensures
        occurs_at(haystack, pattern, at) <==> {
            &&& 0 <= at
            &&& at + pattern.len() <= haystack.len()
            &&& forall|i: int|
                0 <= i < pattern.len() ==> #[trigger] pattern[i] == haystack[at + i]
        },
{
    if 0 <= at && at + pattern.len() <= haystack.len() {
        let found = haystack.subrange(at, at + pattern.len());
        if forall|i: int| 0 <= i < pattern.len() ==> #[trigger] pattern[i] == haystack[at + i] {
            assert(found =~= pattern);
        } else {
            let i = choose|i: int|
                0 <= i < pattern.len() && #[trigger] pattern[i] != haystack[at + i];
            assert(found[i] != pattern[i]);
        }
    }
}

/// An occurrence with none before it is the one `first_from` names.
pub proof fn lemma_first_from_found(haystack: Seq<u8>, pattern: Seq<u8>, from: int, at: int)
    requires
        0 <= from <= at,
        occurs_at(haystack, pattern, at),
        forall|q: int| from <= q < at ==> !occurs_at(haystack, pattern, q),
    ensures
        first_from(haystack, pattern, from) == Some(at),
    decreases at - from,
{
    if from < at {
        assert(!occurs_at(haystack, pattern, from));
        lemma_first_from_found(haystack, pattern, from + 1, at);
    }
}

/// Without an occurrence at or after `from` there is no first one.
pub proof fn lemma_first_from_absent(haystack: Seq<u8>, pattern: Seq<u8>, from: int)
    requires
        0 <= from,
        forall|q: int| from <= q ==> !occurs_at(haystack, pattern, q),
    ensures
        first_from(haystack, pattern, from) is None,
    decreases haystack.len() + 1 - from,
{
    if from + pattern.len() <= haystack.len() {
        assert(!occurs_at(haystack, pattern, from));
        lemma_first_from_absent(haystack, pattern, from + 1);
    }
}

/// What `first_from` names is an occurrence, and nothing before it is one.
pub proof fn lemma_first_from_is_first(haystack: Seq<u8>, pattern: Seq<u8>, from: int)
    requires
        0 <= from,
    ensures
        match first_from(haystack, pattern, from) {
            Some(at) => {
                &&& from <= at
                &&& occurs_at(haystack, pattern, at)
                &&& forall|q: int| from <= q < at ==> !occurs_at(haystack, pattern, q)
            },
            None => forall|q: int| from <= q ==> !occurs_at(haystack, pattern, q),
        },
    decreases haystack.len() + 1 - from,
{
    if from + pattern.len() <= haystack.len() && !occurs_at(haystack, pattern, from) {
        lemma_first_from_is_first(haystack, pattern, from + 1);
    }
}

/// Dropping a prefix shifts every occurrence by the length of the prefix.
pub proof fn lemma_occurs_at_shift(haystack: Seq<u8>, pattern: Seq<u8>, skip: int, at: int)
    requires
        0 <= skip <= haystack.len(),
        0 <= at,
    ensures
        occurs_at(haystack.skip(skip), pattern, at) == occurs_at(haystack, pattern, skip + at),
{
    if at + pattern.len() + skip <= haystack.len() {
        assert(haystack.skip(skip).subrange(at, at + pattern.len()) =~= haystack.subrange(
            skip + at,
            skip + at + pattern.len(),
        ));
    }
}

/// The search in a suffix, shifted back.
pub proof fn lemma_first_from_shift(haystack: Seq<u8>, pattern: Seq<u8>, skip: int, from: int)
    requires
        0 <= skip <= haystack.len(),
        0 <= from,
    ensures
        first_from(haystack, pattern, skip + from) == (match first_from(
            haystack.skip(skip),
            pattern,
            from,
        ) {
            Some(at) => Some(skip + at),
            None => None,
        }),
    decreases haystack.len() + 1 - from,
{
    lemma_occurs_at_shift(haystack, pattern, skip, from);
    if skip + from + pattern.len() <= haystack.len() && !occurs_at(haystack, pattern, skip + from) {
        lemma_first_from_shift(haystack, pattern, skip, from + 1);
    }
}

/// A one-byte pattern occurs exactly where its byte stands.
pub proof fn lemma_occurs_at_byte(haystack: Seq<u8>, byte: u8, at: int)
    ensures
        occurs_at(haystack, seq![byte], at) == (0 <= at < haystack.len() && haystack[at] == byte),
{
    if 0 <= at < haystack.len() {
        assert(haystack.subrange(at, at + 1) =~= seq![haystack[at]]);
        assert(haystack.subrange(at, at + 1)[0] == haystack[at]);
        assert(seq![byte][0] == byte);
    }
}

/// Eight bytes xor-ed with the repeated delimiter: byte `j` of the result is
/// zero exactly where byte `j` is the delimiter.
proof fn lemma_xored_bytes(
    b0: u8,
    b1: u8,
    b2: u8,
    b3: u8,
    b4: u8,
    b5: u8,
    b6: u8,
    b7: u8,
    d: u8,
    x: u64,
)
    by (bit_vector)
    requires
        x == ((b0 as u64) | ((b1 as u64) << 8) | ((b2 as u64) << 16) | ((b3 as u64) << 24) | ((
        b4 as u64) << 32) | ((b5 as u64) << 40) | ((b6 as u64) << 48) | ((b7 as u64) << 56)) ^ (((
        d as u64) * 0x0101010101010101u64) as u64),
    ensures
        (x & 0xff == 0) == (b0 == d),
        ((x >> 8) & 0xff == 0) == (b1 == d),
        ((x >> 16) & 0xff == 0) == (b2 == d),
        ((x >> 24) & 0xff == 0) == (b3 == d),
        ((x >> 32) & 0xff == 0) == (b4 == d),
        ((x >> 40) & 0xff == 0) == (b5 == d),
        ((x >> 48) & 0xff == 0) == (b6 == d),
        ((x >> 56) & 0xff == 0) == (b7 == d),
{
}

/// The lowest set bit of the zero-byte mask is the top bit of the lowest zero
/// byte.
proof fn lemma_lowest_zero_byte(x: u64, w: u64, mask: u64, k: u64)
    by (bit_vector)
    requires
        w + 0x0101010101010101u64 == x || w + 0x0101010101010101u64 == x
            + 0x1_0000_0000_0000_0000,
        mask == w & !x & 0x8080808080808080u64,
        k < 8,
        (x >> (8 * k) as u64) & 0xff == 0,
        0 < k ==> x & 0xff != 0,
        1 < k ==> (x >> 8) & 0xff != 0,
        2 < k ==> (x >> 16) & 0xff != 0,
        3 < k ==> (x >> 24) & 0xff != 0,
        4 < k ==> (x >> 32) & 0xff != 0,
        5 < k ==> (x >> 40) & 0xff != 0,
        6 < k ==> (x >> 48) & 0xff != 0,
    ensures
        (mask >> ((8 * k + 7) as u64)) & 1 == 1,
        mask & (((1u64 << ((8 * k + 7) as u64)) - 1) as u64) == 0,
{
}

/// Without a zero byte the mask is zero.
proof fn lemma_no_zero_byte(x: u64, w: u64)
    by (bit_vector)
    requires
        w + 0x0101010101010101u64 == x || w + 0x0101010101010101u64 == x
            + 0x1_0000_0000_0000_0000,
        x & 0xff != 0,
        (x >> 8) & 0xff != 0,
        (x >> 16) & 0xff != 0,
        (x >> 24) & 0xff != 0,
        (x >> 32) & 0xff != 0,
        (x >> 40) & 0xff != 0,
        (x >> 48) & 0xff != 0,
        (x >> 56) & 0xff != 0,
    ensures
        w & !x & 0x8080808080808080u64 == 0,
{
}

/// A word whose bits below `t` are clear and whose bit `t` is set has `t`
/// trailing zeros.
proof fn lemma_trailing_zeros_at(mask: u64, t: u64)
    requires
        t < 64,
        (mask >> t) & 1 == 1,
        mask & (((1u64 << t) - 1) as u64) == 0,
    ensures
        mask != 0,
        vstd::std_specs::bits::u64_trailing_zeros(mask) == t,
{
    axiom_u64_trailing_zeros(mask);
    assert(mask != 0) by (bit_vector)
        requires
            (mask >> t) & 1 == 1,
    ;
    let z: u64 = vstd::std_specs::bits::u64_trailing_zeros(mask) as u64;
    if z < t {
        assert((mask >> z) & 1 == 0) by (bit_vector)
            requires
                z < t,
                t < 64,
                mask & (((1u64 << t) - 1) as u64) == 0,
        ;
    }
    if t < z {
        assert((mask >> t) & 1u64 == 0u64);
    }
}

/// The position among eight bytes of the first that equals `d`, if any.
spec fn first_of_eight(s: Seq<u8>, d: u8) -> Option<int> {
    if s[0] == d {
        Some(0)
    } else if s[1] == d {
        Some(1)
    } else if s[2] == d {
        Some(2)
    } else if s[3] == d {
        Some(3)
    } else if s[4] == d {
        Some(4)
    } else if s[5] == d {
        Some(5)
    } else if s[6] == d {
        Some(6)
    } else if s[7] == d {
        Some(7)
    } else {
        None
    }
}

/// Index of the first byte of the eight at `at` that equals `delimiter`, by
/// one word-wide comparison.
fn first_in_word(haystack: &[u8], at: usize, delimiter: u8) -> (r: Option<usize>)
    requires
        at + 8 <= haystack@.len(),
    ensures
        match r {
            Some(k) => first_of_eight(haystack@.skip(at as int), delimiter) == Some(k as int),
            None => first_of_eight(haystack@.skip(at as int), delimiter) is None,
        },
{
    let b0: u8 = haystack[at];
    let b1: u8 = haystack[at + 1];
    let b2: u8 = haystack[at + 2];
    let b3: u8 = haystack[at + 3];
    let b4: u8 = haystack[at + 4];
    let b5: u8 = haystack[at + 5];
    let b6: u8 = haystack[at + 6];
    let b7: u8 = haystack[at + 7];
    let word: u64 = (b0 as u64) | ((b1 as u64) << 8) | ((b2 as u64) << 16) | ((b3 as u64) << 24) | ((
    b4 as u64) << 32) | ((b5 as u64) << 40) | ((b6 as u64) << 48) | ((b7 as u64) << 56);
    let pattern: u64 = (delimiter as u64) * 0x0101010101010101u64;
    let xored: u64 = word ^ pattern;
    let lowered: u64 = xored.wrapping_sub(0x0101010101010101u64);
    let mask: u64 = lowered & !xored & 0x8080808080808080u64;
    let ghost s = haystack@.skip(at as int);
    proof {
        assert(s[0] == b0 && s[1] == b1 && s[2] == b2 && s[3] == b3 && s[4] == b4 && s[5] == b5
            && s[6] == b6 && s[7] == b7);
        lemma_xored_bytes(b0, b1, b2, b3, b4, b5, b6, b7, delimiter, xored);
        match first_of_eight(s, delimiter) {
            Some(k) => {
                assert((xored >> (8 * 0u64) as u64) == xored) by (bit_vector);
                lemma_lowest_zero_byte(xored, lowered, mask, k as u64);
                lemma_trailing_zeros_at(mask, (8 * k + 7) as u64);
            },
            None => {
                lemma_no_zero_byte(xored, lowered);
            },
        }
    }
    if mask != 0 {
        Some((mask.trailing_zeros() / 8) as usize)
    } else {
        None
    }
}

/// First position of `delimiter` in `haystack`, eight bytes at a time.
pub fn find_byte_swar(haystack: &[u8], delimiter: u8) -> (r: Option<usize>)
    ensures
        match r {
            Some(at) => first_from(haystack@, seq![delimiter], 0) == Some(at as int),
            None => first_from(haystack@, seq![delimiter], 0) is None,
        },
        r matches Some(at) ==> at < haystack@.len() && haystack@[at as int] == delimiter,
{
    let len: usize = haystack.len();
    let mut i: usize = 0;
    proof {
        assert forall|q: int| #[trigger] occurs_at(haystack@, seq![delimiter], q) == (0 <= q
            < haystack@.len() && haystack@[q] == delimiter) by {
            lemma_occurs_at_byte(haystack@, delimiter, q);
        }
    }
    while len - i >= 8
        invariant
            i <= len == haystack@.len(),
            forall|q: int| 0 <= q < i ==> haystack@[q] != delimiter,
            forall|q: int| #[trigger]
                occurs_at(haystack@, seq![delimiter], q) == (0 <= q < haystack@.len()
                    && haystack@[q] == delimiter),
        decreases len - i,
    {
        let ghost s = haystack@.skip(i as int);
        proof {
            assert forall|q: int| i <= q < len implies haystack@[q] == s[q - i] by {}
        }
        if let Some(k) = first_in_word(haystack, i, delimiter) {
            let at: usize = i + k;
            proof {
                assert forall|q: int| i <= q < at implies haystack@[q] != delimiter by {
                    assert(haystack@[q] == s[q - i]);
                }
                lemma_first_from_found(haystack@, seq![delimiter], 0, at as int);
            }
            return Some(at);
        }
        proof {
            assert forall|q: int| i <= q < i + 8 implies haystack@[q] != delimiter by {
                assert(haystack@[q] == s[q - i]);
            }
        }
        i = i + 8;
    }
    while i < len
        invariant
            i <= len == haystack@.len(),
            forall|q: int| 0 <= q < i ==> haystack@[q] != delimiter,
            forall|q: int| #[trigger]
                occurs_at(haystack@, seq![delimiter], q) == (0 <= q < haystack@.len()
                    && haystack@[q] == delimiter),
        decreases len - i,
    {
        if haystack[i] == delimiter {
            proof {
                lemma_first_from_found(haystack@, seq![delimiter], 0, i as int);
            }
            return Some(i);
        }
        i = i + 1;
    }
    proof {
        lemma_first_from_absent(haystack@, seq![delimiter], 0);
    }
    None
}

/// Whether `pattern` stands in `haystack` at `at`.
pub fn pattern_at(haystack: &[u8], pattern: &[u8], at: usize) -> (r: bool)
    ensures
        r == occurs_at(haystack@, pattern@, at as int),
{
    let plen: usize = pattern.len();
    let hlen: usize = haystack.len();
    if at > hlen || hlen - at < plen {
        return false;
    }
    let mut k: usize = 0;
    while k < plen
        invariant
            k <= plen == pattern@.len(),
            at + plen <= hlen == haystack@.len(),
            forall|q: int| 0 <= q < k ==> haystack@[at + q] == pattern@[q],
        decreases plen - k,
    {
        if haystack[at + k] != pattern[k] {
            proof {
                assert(haystack@.subrange(at as int, at + plen)[k as int] == haystack@[at + k]);
            }
            return false;
        }
        k = k + 1;
    }
    proof {
        assert(haystack@.subrange(at as int, at + plen) =~= pattern@);
    }
    true
}

/// First position of `pattern` in `haystack`: candidates by the pattern's
/// first byte, each then compared in full. An empty pattern is never found.
pub fn find_pattern_in_slice(haystack: &[u8], pattern: &[u8]) -> (r: Option<usize>)
    ensures
        pattern@.len() == 0 ==> r is None,
        pattern@.len() > 0 ==> match r {
            Some(at) => first_from(haystack@, pattern@, 0) == Some(at as int),
            None => first_from(haystack@, pattern@, 0) is None,
        },
        r matches Some(at) ==> occurs_at(haystack@, pattern@, at as int),
{
    let plen: usize = pattern.len();
    if plen == 0 || haystack.len() < plen {
        return None;
    }
    let first_byte: u8 = pattern[0];
    if plen == 1 {
        proof {
            assert(pattern@ =~= seq![first_byte]);
            lemma_first_from_is_first(haystack@, pattern@, 0);
        }
        return find_byte_swar(haystack, first_byte);
    }
    let max_search: usize = haystack.len() - plen;
    let mut search_start: usize = 0;
    while search_start <= max_search
        invariant
            plen == pattern@.len() >= 2,
            max_search + plen == haystack@.len(),
            search_start <= max_search + 1,
            first_byte == pattern@[0],
            forall|q: int| 0 <= q < search_start ==> !occurs_at(haystack@, pattern@, q),
        decreases max_search + 1 - search_start,
    {
        let remainder = vstd::slice::slice_subrange(haystack, search_start, haystack.len());
        proof {
            assert(remainder@ =~= haystack@.skip(search_start as int));
            lemma_first_from_is_first(remainder@, seq![first_byte], 0);
            assert forall|q: int| search_start <= q && occurs_at(haystack@, pattern@, q) implies
                occurs_at(remainder@, seq![first_byte], q - search_start) by {
                lemma_occurs_at_byte(remainder@, first_byte, q - search_start);
                assert(haystack@.subrange(q, q + plen)[0] == haystack@[q]);
                assert(remainder@[q - search_start] == haystack@[q]);
            }
        }
        match find_byte_swar(remainder, first_byte) {
            Some(rel_pos) => {
                let pos: usize = search_start + rel_pos;
                if pos > max_search {
                    proof {
                        lemma_first_from_absent(haystack@, pattern@, 0);
                    }
                    return None;
                }
                if pattern_at(haystack, pattern, pos) {
                    proof {
                        lemma_first_from_found(haystack@, pattern@, 0, pos as int);
                    }
                    return Some(pos);
                }
                search_start = pos + 1;
            },
            None => {
                proof {
                    lemma_first_from_absent(haystack@, pattern@, 0);
                }
                return None;
            },
        }
    }
    proof {
        lemma_first_from_absent(haystack@, pattern@, 0);
    }
    None
}

/// First position of `pattern` at or after `from`.
pub fn find_pattern_after(haystack: &[u8], pattern: &[u8], from: usize) -> (r: Option<usize>)
    requires
        pattern@.len() > 0,
        from <= haystack@.len(),
    ensures
        match r {
            Some(at) => first_from(haystack@, pattern@, from as int) == Some(at as int),
            None => first_from(haystack@, pattern@, from as int) is None,
        },
        r matches Some(at) ==> from <= at && occurs_at(haystack@, pattern@, at as int),
{
    let remainder = vstd::slice::slice_subrange(haystack, from, haystack.len());
    proof {
        assert(remainder@ =~= haystack@.skip(from as int));
        lemma_first_from_shift(haystack@, pattern@, from as int, 0);
        lemma_first_from_is_first(haystack@, pattern@, from as int);
    }
    match find_pattern_in_slice(remainder, pattern) {
        Some(rel) => Some(from + rel),
        None => None,
    }
}

} // verus!
