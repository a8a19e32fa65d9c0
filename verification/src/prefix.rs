//! Numbers in length prefixes, and streams of length-prefixed records.

use crate::error::SourceError;
use crate::framing::{
    be_value, le_value, next_boundary, prefix_value, prefixed_boundary, prefixed_end, usable,
    Framing,
};
use vstd::arithmetic::div_mod::{
    lemma_div_basics, lemma_div_denominator, lemma_fundamental_div_mod,
    lemma_fundamental_div_mod_converse,
};
use vstd::arithmetic::power::{
    lemma_pow0, lemma_pow1, lemma_pow_adds, lemma_pow_increases, lemma_pow_positive,
    lemma_pow_strictly_increases, pow,
};
use vstd::prelude::*;

verus! {

/// The bytes write the number `v` in base 256, in the given order.
pub open spec fn writes_number(prefix: Seq<u8>, little_endian: bool, v: int) -> bool {
    &&& 0 <= v < pow(256, prefix.len())
    &&& forall|j: int|
        0 <= j < prefix.len() ==> #[trigger] prefix[j] == (v / pow(
            256,
            (if little_endian {
                j
            } else {
                prefix.len() - 1 - j
            }) as nat,
        )) % 256
}

/// Dividing by 256 once more is dividing by the next power.
proof fn lemma_next_power(v: int, j: int)
    requires
        0 <= v,
        0 <= j,
    ensures
        pow(256, (j + 1) as nat) == 256 * pow(256, j as nat),
        v / pow(256, (j + 1) as nat) == (v / 256) / pow(256, j as nat),
{
    lemma_pow1(256);
    lemma_pow_adds(256, 1, j as nat);
    lemma_pow_positive(256, j as nat);
    lemma_div_denominator(v, 256, pow(256, j as nat));
}

/// A number below a power of 256 has a quotient below the power before.
proof fn lemma_quotient_bound(v: int, k: int)
    requires
        1 <= k,
        0 <= v < pow(256, k as nat),
    ensures
        0 <= v / 256 < pow(256, (k - 1) as nat),
{
    lemma_next_power(v, k - 1);
    lemma_fundamental_div_mod(v, 256);
}

proof fn lemma_le_reads(s: Seq<u8>, v: int)
    requires
        writes_number(s, true, v),
    ensures
        le_value(s) == v,
    decreases s.len(),
{
    let k = s.len() as int;
    lemma_pow0(256);
    if k > 0 {
        let rest = s.drop_first();
        lemma_quotient_bound(v, k);
        lemma_fundamental_div_mod(v, 256);
        lemma_div_basics(v);
        assert forall|j: int| 0 <= j < k - 1 implies #[trigger] rest[j] == ((v / 256) / pow(
            256,
            j as nat,
        )) % 256 by {
            lemma_next_power(v, j);
            assert(rest[j] == s[j + 1]);
        }
        lemma_le_reads(rest, v / 256);
    }
}

proof fn lemma_be_reads(s: Seq<u8>, v: int)
    requires
        writes_number(s, false, v),
    ensures
        be_value(s) == v,
    decreases s.len(),
{
    let k = s.len() as int;
    lemma_pow0(256);
    if k > 0 {
        let rest = s.drop_last();
        lemma_quotient_bound(v, k);
        lemma_fundamental_div_mod(v, 256);
        lemma_div_basics(v);
        assert(s.last() == s[k - 1]);
        assert forall|j: int| 0 <= j < k - 1 implies #[trigger] rest[j] == ((v / 256) / pow(
            256,
            (k - 1 - 1 - j) as nat,
        )) % 256 by {
            lemma_next_power(v, k - 2 - j);
            assert(rest[j] == s[j]);
        }
        lemma_be_reads(rest, v / 256);
    }
}

/// Law: a prefix is read in base 256. For every number that fits in `k` bytes,
/// reading the bytes that write it, in either order, gives the number.
pub proof fn law_prefix_reads_what_is_written(
    bytes: Seq<u8>,
    start: int,
    k: int,
    little_endian: bool,
    v: int,
)
    requires
        0 <= start,
        0 <= k,
        start + k <= bytes.len(),
        writes_number(bytes.subrange(start, start + k), little_endian, v),
    ensures
        prefix_value(bytes, start, k, little_endian) == v,
{
    let prefix = bytes.subrange(start, start + k);
    if little_endian {
        lemma_le_reads(prefix, v);
    } else {
        lemma_be_reads(prefix, v);
    }
}

proof fn lemma_le_digits(s: Seq<u8>, j: int)
    requires
        0 <= j < s.len(),
    ensures
        s[j] == (le_value(s) as int / pow(256, j as nat)) % 256,
    decreases s.len(),
{
    let v = le_value(s) as int;
    let rest = le_value(s.drop_first()) as int;
    lemma_fundamental_div_mod_converse(v, 256, rest, s[0] as int);
    lemma_pow0(256);
    lemma_div_basics(v);
    if j > 0 {
        lemma_le_digits(s.drop_first(), j - 1);
        lemma_next_power(v, j - 1);
    }
}

proof fn lemma_le_fits(s: Seq<u8>)
    ensures
        le_value(s) < pow(256, s.len()),
    decreases s.len(),
{
    lemma_pow0(256);
    if s.len() > 0 {
        lemma_le_fits(s.drop_first());
        lemma_next_power(0, s.len() - 1);
    }
}

/// Law: bytes read most significant first give the number that their reverse
/// gives read least significant first.
pub proof fn law_byte_orders_mirror(s: Seq<u8>)
    ensures
        be_value(s) == le_value(s.reverse()),
    decreases s.len(),
{
    if s.len() > 0 {
        law_byte_orders_mirror(s.drop_last());
        assert(s.reverse().drop_first() =~= s.drop_last().reverse());
        assert(s.reverse()[0] == s.last());
    } else {
        assert(s.reverse().len() == 0);
    }
}

/// Law: the number in a prefix of `k` bytes is below `256^k`, and its digits in
/// base 256 are the bytes of the prefix, in the order that the framing gives.
pub proof fn law_prefix_digits_are_its_bytes(
    bytes: Seq<u8>,
    start: int,
    k: int,
    little_endian: bool,
)
    requires
        0 <= start,
        0 <= k,
        start + k <= bytes.len(),
    ensures
        writes_number(
            bytes.subrange(start, start + k),
            little_endian,
            prefix_value(bytes, start, k, little_endian) as int,
        ),
{
    let prefix = bytes.subrange(start, start + k);
    if little_endian {
        lemma_le_fits(prefix);
        assert forall|j: int| 0 <= j < k implies #[trigger] prefix[j] == (le_value(
            prefix,
        ) as int / pow(256, j as nat)) % 256 by {
            lemma_le_digits(prefix, j);
        }
    } else {
        let mirrored = prefix.reverse();
        law_byte_orders_mirror(prefix);
        lemma_le_fits(mirrored);
        assert forall|j: int| 0 <= j < k implies #[trigger] prefix[j] == (be_value(
            prefix,
        ) as int / pow(256, (k - 1 - j) as nat)) % 256 by {
            lemma_le_digits(mirrored, k - 1 - j);
            assert(mirrored[k - 1 - j] == prefix[j]);
        }
    }
}

/// Law: where a length-prefixed record ends. A prefix of `k` bytes that writes
/// `v` is followed by `v` bytes, or begins a record of `v` bytes in all where the
/// length counts the prefix too. What does not fit is refused.
pub proof fn law_prefixed_record_end(
    bytes: Seq<u8>,
    start: int,
    k: int,
    little_endian: bool,
    length_includes_prefix: bool,
    v: int,
)
    requires
        0 <= start <= bytes.len(),
        1 <= k <= 8,
        start + k <= bytes.len() ==> writes_number(bytes.subrange(start, start + k), little_endian, v),
    ensures
        prefixed_end(bytes, start, k, little_endian, length_includes_prefix) == if start + k
            > bytes.len() {
            Err::<int, SourceError>(SourceError::TruncatedPrefix)
        } else if length_includes_prefix {
            if v < k {
                Err(SourceError::PrefixTooSmall)
            } else if start + v <= bytes.len() {
                Ok(start + v)
            } else {
                Err(SourceError::RecordExceedsFile)
            }
        } else {
            if v + k > u64::MAX {
                Err(SourceError::RecordLengthOverflow)
            } else if start + k + v <= bytes.len() {
                Ok(start + k + v)
            } else {
                Err(SourceError::RecordExceedsFile)
            }
        },
{
    if start + k <= bytes.len() {
        law_prefix_reads_what_is_written(bytes, start, k, little_endian, v);
    }
}

/// A length-prefixed record occupies the bytes from `start` to `end`: its prefix
/// writes how many bytes it has, with or without the prefix itself.
pub open spec fn is_record(
    bytes: Seq<u8>,
    start: int,
    end: int,
    k: int,
    little_endian: bool,
    length_includes_prefix: bool,
) -> bool {
    &&& start + k <= end <= bytes.len()
    &&& writes_number(
        bytes.subrange(start, start + k),
        little_endian,
        if length_includes_prefix {
            end - start
        } else {
            end - start - k
        },
    )
}

/// From the first byte on, there is one length-prefixed record between each mark
/// and the next.
pub open spec fn marks_records(
    bytes: Seq<u8>,
    marks: Seq<int>,
    k: int,
    little_endian: bool,
    length_includes_prefix: bool,
) -> bool {
    &&& marks.len() > 0
    &&& marks[0] == 0
    &&& forall|i: int, j: int|
        0 <= i && j == i + 1 && j < marks.len() ==> is_record(
            bytes,
            #[trigger] marks[i],
            #[trigger] marks[j],
            k,
            little_endian,
            length_includes_prefix,
        )
}

/// Marks do not go back.
pub proof fn lemma_marks_ordered(
    bytes: Seq<u8>,
    marks: Seq<int>,
    k: int,
    little_endian: bool,
    length_includes_prefix: bool,
    i: int,
    j: int,
)
    requires
        1 <= k,
        marks_records(bytes, marks, k, little_endian, length_includes_prefix),
        0 <= i <= j < marks.len(),
    ensures
        0 <= marks[i] <= marks[j] <= bytes.len(),
    decreases j,
{
    if j > 0 {
        assert(is_record(
            bytes,
            marks[j - 1],
            marks[j],
            k,
            little_endian,
            length_includes_prefix,
        ));
        if i < j {
            lemma_marks_ordered(
                bytes,
                marks,
                k,
                little_endian,
                length_includes_prefix,
                i,
                j - 1,
            );
        } else {
            lemma_marks_ordered(
                bytes,
                marks,
                k,
                little_endian,
                length_includes_prefix,
                j - 1,
                j - 1,
            );
        }
    }
}

pub proof fn lemma_walk(
    bytes: Seq<u8>,
    marks: Seq<int>,
    k: int,
    little_endian: bool,
    length_includes_prefix: bool,
    m: int,
    i: int,
    from: int,
)
    requires
        bytes.len() <= u64::MAX,
        1 <= k <= 8,
        marks_records(bytes, marks, k, little_endian, length_includes_prefix),
        0 <= m <= i < marks.len(),
        marks[i] <= from,
        i + 1 < marks.len() ==> from < marks[i + 1],
    ensures
        prefixed_boundary(
            bytes,
            marks[m],
            k,
            little_endian,
            length_includes_prefix,
            from,
        ) == if i + 1 < marks.len() {
            Ok::<Option<int>, SourceError>(Some(marks[i + 1]))
        } else {
            prefixed_boundary(bytes, marks[i], k, little_endian, length_includes_prefix, from)
        },
    decreases i - m,
{
    lemma_marks_ordered(bytes, marks, k, little_endian, length_includes_prefix, m, m);
    if m + 1 < marks.len() {
        let start = marks[m];
        let end = marks[m + 1];
        assert(is_record(bytes, start, end, k, little_endian, length_includes_prefix));
        law_prefixed_record_end(
            bytes,
            start,
            k,
            little_endian,
            length_includes_prefix,
            if length_includes_prefix {
                end - start
            } else {
                end - start - k
            },
        );
        if m < i {
            lemma_marks_ordered(
                bytes,
                marks,
                k,
                little_endian,
                length_includes_prefix,
                m + 1,
                i,
            );
            lemma_walk(
                bytes,
                marks,
                k,
                little_endian,
                length_includes_prefix,
                m + 1,
                i,
                from,
            );
        }
    }
}

/// Law: in bytes that are length-prefixed records one after another, the boundary
/// after an offset inside a record is the end of that record, and past the last
/// record there is none.
pub proof fn law_prefixed_boundaries_are_record_ends(
    bytes: Seq<u8>,
    marks: Seq<int>,
    k: int,
    little_endian: bool,
    length_includes_prefix: bool,
    i: int,
    from: int,
)
    requires
        bytes.len() <= u64::MAX,
        1 <= k <= 8,
        marks_records(bytes, marks, k, little_endian, length_includes_prefix),
        marks.last() == bytes.len(),
        0 <= i < marks.len(),
        marks[i] <= from,
        i + 1 < marks.len() ==> from < marks[i + 1],
    ensures
        next_boundary(
            Framing::LengthPrefixed { prefix_bytes: k, little_endian, length_includes_prefix },
            bytes,
            from,
        ) == Ok::<Option<int>, SourceError>(
            if i + 1 < marks.len() {
                Some(marks[i + 1])
            } else {
                None
            },
        ),
{
    lemma_walk(bytes, marks, k, little_endian, length_includes_prefix, 0, i, from);
}

/// Law: past the records that can be read, the first one that cannot is an error:
/// looking for the boundary after an offset there gives what is wrong with it.
/// `v` is what the prefix of that record writes, if there is one.
pub proof fn law_unreadable_record_is_reported(
    bytes: Seq<u8>,
    marks: Seq<int>,
    k: int,
    little_endian: bool,
    length_includes_prefix: bool,
    v: int,
    from: int,
)
    requires
        bytes.len() <= u64::MAX,
        1 <= k <= 8,
        marks_records(bytes, marks, k, little_endian, length_includes_prefix),
        marks.last() < bytes.len(),
        marks.last() <= from,
        marks.last() + k <= bytes.len() ==> writes_number(
            bytes.subrange(marks.last(), marks.last() + k),
            little_endian,
            v,
        ),
    ensures
        ({
            let framing = Framing::LengthPrefixed {
                prefix_bytes: k,
                little_endian,
                length_includes_prefix,
            };
            let outcome = next_boundary(framing, bytes, from);
            let start = marks.last();
            let body = if length_includes_prefix {
                v
            } else {
                k + v
            };
            &&& start + k > bytes.len() ==> outcome == Err::<Option<int>, SourceError>(
                SourceError::TruncatedPrefix,
            )
            &&& start + k <= bytes.len() && length_includes_prefix && v < k ==> outcome == Err::<
                Option<int>,
                SourceError,
            >(SourceError::PrefixTooSmall)
            &&& start + k <= bytes.len() && body >= k && body <= u64::MAX && start + body
                > bytes.len() ==> outcome == Err::<Option<int>, SourceError>(
                SourceError::RecordExceedsFile,
            )
            &&& start + k <= bytes.len() && !length_includes_prefix && body > u64::MAX ==> outcome
                == Err::<Option<int>, SourceError>(SourceError::RecordLengthOverflow)
        }),
{
    let i = marks.len() - 1;
    lemma_marks_ordered(bytes, marks, k, little_endian, length_includes_prefix, i, i);
    lemma_walk(bytes, marks, k, little_endian, length_includes_prefix, 0, i, from);
    law_prefixed_record_end(bytes, marks.last(), k, little_endian, length_includes_prefix, v);
}

/// Law: a length prefix can be used exactly when it has a byte and every number
/// that it can write fits in 64 bits; a delimiter when it has a byte; a record
/// width when it is positive.
pub proof fn law_usable_framings(framing: Framing)
    ensures
        framing matches Framing::LengthPrefixed { prefix_bytes, .. } ==> (usable(framing)
            <==> prefix_bytes >= 1 && pow(256, prefix_bytes as nat) <= 0x1_0000_0000_0000_0000),
        framing matches Framing::Delimiter(delimiter) ==> (usable(framing) <==> delimiter
            != Seq::<u8>::empty()),
        framing matches Framing::FixedWidth(record_bytes) ==> (usable(framing) <==> record_bytes
            > 0),
{
    if let Framing::LengthPrefixed { prefix_bytes, .. } = framing {
        assert(pow(256, 8) == 0x1_0000_0000_0000_0000) by {
            reveal_with_fuel(pow, 9);
        }
        if 1 <= prefix_bytes <= 8 {
            lemma_pow_increases(256, prefix_bytes as nat, 8);
        } else if prefix_bytes > 8 {
            lemma_pow_strictly_increases(256, 8, prefix_bytes as nat);
        }
    }
    if let Framing::Delimiter(delimiter) = framing {
        if delimiter.len() == 0 {
            assert(delimiter =~= Seq::empty());
        }
    }
}

} // verus!
