//! When planning succeeds, and what is planned where there is nothing to plan.

use crate::document::{layout_value, Layout, Style};
use crate::error::{ErrorKind, SourceError};
use crate::framing::{
    boundary_past, framing_text, law_boundary_advances, prefixed_boundary, prefixed_end,
    strategy_name, usable, usable_error, BuiltinFraming, Framing, FramingStrategy,
};
use crate::index::{check_offsets, index_ranges, Index};
use crate::json::{lookup, JsonValue};
use crate::manifest::framing_members;
use crate::prefix::{lemma_walk, marks_records};
use crate::ranges::{framed_points, ideal_target, lemma_ideal_target, partition};
use crate::roundtrip::{lemma_field, lemma_framing_keys};
use crate::source::strategy_ranges;
use crate::text::{dec_text, hex_text};
use vstd::prelude::*;

verus! {

/// Law: an index is refused exactly when it has no stride, was made for a file of
/// another size, or holds offsets that are not accepted.
pub proof fn law_index_refused_exactly(index: Index, n: int, file_len: int)
    ensures
        index_ranges(index, n, file_len) is Err <==> {
            ||| index.stride == 0
            ||| file_len != index.source_size
            ||| check_offsets(index.record_count, index.offsets, index.source_size) is Err
        },
{
}

/// Law: without bytes, without parts, or in an index without records, there are
/// no ranges.
pub proof fn law_nothing_gives_no_ranges(
    index: Index,
    strategy: BuiltinFraming,
    data: Seq<u8>,
    n: int,
    cut: spec_fn(int) -> int,
)
    ensures
        data.len() == 0 || n == 0 ==> partition(data.len() as int, n, cut) == Seq::<
            (int, int),
        >::empty(),
        data.len() == 0 || n == 0 ==> strategy_ranges(&strategy, data, n) == Ok::<
            Seq<(int, int)>,
            SourceError,
        >(Seq::empty()),
        index.source_size == 0 || n == 0 || index.record_count == 0 ==> (index_ranges(
            index,
            n,
            index.source_size as int,
        ) matches Ok(ranges) ==> ranges == Seq::<(int, int)>::empty()),
{
}

/// Where every cut can be found, so can all of them.
proof fn lemma_points_found(
    len: int,
    n: int,
    i: int,
    last: int,
    cut: spec_fn(int, int) -> Result<Option<int>, SourceError>,
)
    requires
        0 < len,
        0 < n,
        1 <= i <= n,
        0 <= last <= len,
        forall|l: int, t: int|
            0 <= l < t < len ==> match #[trigger] cut(l, t) {
                Ok(Some(b)) => t < b <= len,
                Ok(None) => true,
                Err(_) => false,
            },
    ensures
        framed_points(len, n, i, last, cut) is Ok,
    decreases n - i,
{
    if i < n {
        lemma_ideal_target(len, n, i);
        let t = ideal_target(len, n, i);
        if t <= last {
            lemma_points_found(len, n, i + 1, last, cut);
        } else if let Ok(Some(b)) = cut(last, t) {
            lemma_points_found(len, n, i + 1, b, cut);
        }
    }
}

/// Law: records that end in a delimiter, or have a fixed width, can always be
/// planned, whatever the bytes are.
pub proof fn law_plain_framings_always_plan(strategy: BuiltinFraming, data: Seq<u8>, n: int)
    requires
        usable(strategy@),
        strategy@ is Delimiter || strategy@ is FixedWidth,
        0 <= n,
    ensures
        strategy_ranges(&strategy, data, n) is Ok,
{
    let len = data.len() as int;
    let cut = |last: int, target: int| strategy.boundary(data, last, target);
    assert forall|l: int, t: int| 0 <= l < t < len implies match #[trigger] cut(l, t) {
        Ok(Some(b)) => t < b <= len,
        Ok(None) => true,
        Err(_) => false,
    } by {
        law_boundary_advances(strategy@, data, l, t);
    }
    if len > 0 && n > 0 {
        lemma_points_found(
            len,
            if n < len {
                n
            } else {
                len
            },
            1,
            0,
            cut,
        );
    }
}

/// The mark at which the record that holds an offset starts.
proof fn lemma_mark_of(
    bytes: Seq<u8>,
    marks: Seq<int>,
    k: int,
    little_endian: bool,
    length_includes_prefix: bool,
    m: int,
    offset: int,
) -> (i: int)
    requires
        1 <= k,
        marks_records(bytes, marks, k, little_endian, length_includes_prefix),
        0 <= m < marks.len(),
        marks[m] <= offset < marks.last(),
    ensures
        m <= i < marks.len() - 1,
        marks[i] <= offset < marks[i + 1],
    decreases marks.len() - m,
{
    if offset < marks[m + 1] {
        m
    } else {
        lemma_mark_of(
            bytes,
            marks,
            k,
            little_endian,
            length_includes_prefix,
            m + 1,
            offset,
        )
    }
}

/// Law: bytes that are length-prefixed records one after another can always be
/// planned.
pub proof fn law_readable_records_always_plan(
    strategy: BuiltinFraming,
    data: Seq<u8>,
    marks: Seq<int>,
    n: int,
)
    requires
        usable(strategy@),
        data.len() <= u64::MAX,
        strategy@ matches Framing::LengthPrefixed {
            prefix_bytes,
            little_endian,
            length_includes_prefix,
        } && marks_records(data, marks, prefix_bytes, little_endian, length_includes_prefix),
        marks.last() == data.len(),
        0 <= n,
    ensures
        strategy_ranges(&strategy, data, n) is Ok,
{
    let len = data.len() as int;
    let cut = |last: int, target: int| strategy.boundary(data, last, target);
    if let Framing::LengthPrefixed { prefix_bytes, little_endian, length_includes_prefix } =
        strategy@ {
        assert forall|l: int, t: int| 0 <= l < t < len implies match #[trigger] cut(l, t) {
            Ok(Some(b)) => t < b <= len,
            Ok(None) => true,
            Err(_) => false,
        } by {
            law_boundary_advances(strategy@, data, l, t);
            let i = lemma_mark_of(
                data,
                marks,
                prefix_bytes,
                little_endian,
                length_includes_prefix,
                0,
                t,
            );
            lemma_walk(data, marks, prefix_bytes, little_endian, length_includes_prefix, 0, i, t);
        }
        if len > 0 && n > 0 {
            lemma_points_found(
                len,
                if n < len {
                    n
                } else {
                    len
                },
                1,
                0,
                cut,
            );
        }
    }
}

/// Law: a framing is stored under the name of its strategy.
pub proof fn law_framing_is_stored_by_name(framing: Framing)
    ensures
        lookup(
            layout_value(Layout::Object(Style::Block(2), framing_members(framing))),
            "strategy"@,
        ) == Some(JsonValue::Text(strategy_name(framing))),
{
    lemma_framing_keys(framing);
    lemma_field(Style::Block(2), framing_members(framing), 0);
}

/// Law: a framing that cannot be used is an invalid input, and is told what its
/// parameter lacks.
pub proof fn law_unusable_framing_is_invalid_input(framing: Framing)
    requires
        !usable(framing),
    ensures
        usable_error(framing).class() == ErrorKind::InvalidInput,
        framing is Delimiter ==> usable_error(framing) == SourceError::EmptyDelimiter,
        framing is FixedWidth ==> usable_error(framing) == SourceError::ZeroRecordBytes,
        framing is LengthPrefixed ==> usable_error(framing) == SourceError::PrefixWidth,
{
}

/// Law: bytes that do not hold the records that a framing expects are invalid
/// data.
pub proof fn law_unreadable_bytes_are_invalid_data(
    framing: Framing,
    bytes: Seq<u8>,
    last: int,
    from: int,
)
    ensures
        boundary_past(framing, bytes, last, from) matches Err(e) ==> e.class()
            == ErrorKind::InvalidData,
{
    if let Framing::LengthPrefixed { prefix_bytes, little_endian, length_includes_prefix } =
        framing {
        lemma_walk_is_data(
            bytes,
            0,
            prefix_bytes,
            little_endian,
            length_includes_prefix,
            from,
        );
    }
}

proof fn lemma_walk_is_data(
    bytes: Seq<u8>,
    cursor: int,
    k: int,
    little_endian: bool,
    length_includes_prefix: bool,
    from: int,
)
    ensures
        prefixed_boundary(
            bytes,
            cursor,
            k,
            little_endian,
            length_includes_prefix,
            from,
        ) matches Err(e) ==> e.class() == ErrorKind::InvalidData,
    decreases bytes.len() - cursor,
{
    if cursor < bytes.len() && k >= 1 {
        if let Ok(end) = prefixed_end(bytes, cursor, k, little_endian, length_includes_prefix) {
            if end <= from {
                lemma_walk_is_data(bytes, end, k, little_endian, length_includes_prefix, from);
            }
        }
    }
}

/// Law: the text of a framing is the name of its strategy and, in brackets, its
/// parameters: a delimiter in hexadecimal, a width in decimal, a prefix by its
/// width, its byte order and whether the length counts it, another strategy by
/// its own name.
pub proof fn law_framing_text_gives_parameters(framing: Framing)
    ensures
        framing_text(framing) == strategy_name(framing) + "("@ + (match framing {
            Framing::Delimiter(delimiter) => hex_text(delimiter),
            Framing::FixedWidth(record_bytes) => dec_text(record_bytes as nat),
            Framing::LengthPrefixed { prefix_bytes, little_endian, length_includes_prefix } =>
                "prefix="@ + dec_text(prefix_bytes as nat) + ", endian="@ + (if little_endian {
                    "le"@
                } else {
                    "be"@
                }) + ", includes_prefix="@ + (if length_includes_prefix {
                    "true"@
                } else {
                    "false"@
                }),
            Framing::Custom(name) => name,
        }) + ")"@,
{
    reveal_strlit("(");
    reveal_strlit(")");
    reveal_strlit("delimiter");
    reveal_strlit("delimiter(");
    reveal_strlit("fixed_width");
    reveal_strlit("fixed_width(");
    reveal_strlit("custom");
    reveal_strlit("custom(");
    reveal_strlit("length_prefixed");
    reveal_strlit("length_prefixed(prefix=");
    reveal_strlit("prefix=");
    reveal_strlit(", endian=");
    reveal_strlit(", endian=le");
    reveal_strlit(", endian=be");
    reveal_strlit("le");
    reveal_strlit("be");
    reveal_strlit(", includes_prefix=");
    reveal_strlit(", includes_prefix=true)");
    reveal_strlit(", includes_prefix=false)");
    reveal_strlit("true");
    reveal_strlit("false");
    match framing {
        Framing::Delimiter(_) => {
            assert("delimiter("@ =~= "delimiter"@ + "("@);
        },
        Framing::FixedWidth(_) => {
            assert("fixed_width("@ =~= "fixed_width"@ + "("@);
        },
        Framing::Custom(_) => {
            assert("custom("@ =~= "custom"@ + "("@);
        },
        Framing::LengthPrefixed { prefix_bytes, little_endian, length_includes_prefix } => {
            assert("length_prefixed(prefix="@ =~= "length_prefixed"@ + "("@ + "prefix="@);
            assert(", endian=le"@ =~= ", endian="@ + "le"@);
            assert(", endian=be"@ =~= ", endian="@ + "be"@);
            assert(", includes_prefix=true)"@ =~= ", includes_prefix="@ + "true"@ + ")"@);
            assert(", includes_prefix=false)"@ =~= ", includes_prefix="@ + "false"@ + ")"@);
            let order = if little_endian {
                "le"@
            } else {
                "be"@
            };
            let counts = if length_includes_prefix {
                "true"@
            } else {
                "false"@
            };
            let width = dec_text(prefix_bytes as nat);
            assert(framing_text(framing) == ("length_prefixed"@ + "("@ + "prefix="@) + width + (
            ", endian="@ + order) + (", includes_prefix="@ + counts + ")"@));
            assert(("length_prefixed"@ + "("@ + "prefix="@) + width + (", endian="@ + order) + (
            ", includes_prefix="@ + counts + ")"@) =~= "length_prefixed"@ + "("@ + ("prefix="@
                + width + ", endian="@ + order + ", includes_prefix="@ + counts) + ")"@);
        },
    }
}

} // verus!
