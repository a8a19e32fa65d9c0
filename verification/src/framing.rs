//! What a record is: framing strategies and the scanners that find where the
//! next record ends.

use crate::error::SourceError;
use crate::scanner::ends_with_delimiter;
use crate::search::{first_from, lemma_first_from_is_first, occurs_apart, occurs_at};
use crate::source::{fill_buffer, find_pattern_from, ByteSource};
use crate::text::{dec_text, hex_text, push_decimal, push_hex};
use vstd::arithmetic::div_mod::{lemma_fundamental_div_mod, lemma_mod_multiples_basic};
use vstd::prelude::*;

verus! {

/// Widest supported length prefix, in bytes.
pub const MAX_LENGTH_PREFIX_BYTES: u8 = 8;

/// A framing, as mathematical data.
#[verifier::ext_equal]
pub enum Framing {
    Delimiter(Seq<u8>),
    FixedWidth(int),
    LengthPrefixed { prefix_bytes: int, little_endian: bool, length_includes_prefix: bool },
    Custom(Seq<char>),
}

/// The parameters of a framing can be used.
pub open spec fn usable(framing: Framing) -> bool {
    match framing {
        Framing::Delimiter(delimiter) => delimiter.len() > 0,
        Framing::FixedWidth(record_bytes) => record_bytes > 0,
        Framing::LengthPrefixed { prefix_bytes, .. } => 1 <= prefix_bytes <= 8,
        Framing::Custom(_) => true,
    }
}

/// What is wrong with the parameters of a framing that cannot be used.
pub open spec fn usable_error(framing: Framing) -> SourceError {
    match framing {
        Framing::Delimiter(_) => SourceError::EmptyDelimiter,
        Framing::FixedWidth(_) => SourceError::ZeroRecordBytes,
        _ => SourceError::PrefixWidth,
    }
}

/// Unsigned value of bytes, least significant first.
pub open spec fn le_value(s: Seq<u8>) -> nat
    decreases s.len(),
{
    if s.len() == 0 {
        0
    } else {
        s[0] as nat + 256 * le_value(s.drop_first())
    }
}

/// Unsigned value of bytes, most significant first.
pub open spec fn be_value(s: Seq<u8>) -> nat
    decreases s.len(),
{
    if s.len() == 0 {
        0
    } else {
        be_value(s.drop_last()) * 256 + s.last() as nat
    }
}

/// The number in the length prefix at `start`.
pub open spec fn prefix_value(bytes: Seq<u8>, start: int, prefix_bytes: int, little_endian: bool) -> nat {
    let prefix = bytes.subrange(start, start + prefix_bytes);
    if little_endian {
        le_value(prefix)
    } else {
        be_value(prefix)
    }
}

/// Where the length-prefixed record that starts at `start` ends.
pub open spec fn prefixed_end(
    bytes: Seq<u8>,
    start: int,
    prefix_bytes: int,
    little_endian: bool,
    length_includes_prefix: bool,
) -> Result<int, SourceError> {
    let value = prefix_value(bytes, start, prefix_bytes, little_endian);
    if bytes.len() - start < prefix_bytes {
        Err(SourceError::TruncatedPrefix)
    } else if length_includes_prefix && value < prefix_bytes {
        Err(SourceError::PrefixTooSmall)
    } else if !length_includes_prefix && value + prefix_bytes > u64::MAX {
        Err(SourceError::RecordLengthOverflow)
    } else {
        let end = start + value + if length_includes_prefix {
            0
        } else {
            prefix_bytes
        };
        if end > bytes.len() {
            Err(SourceError::RecordExceedsFile)
        } else {
            Ok(end)
        }
    }
}

/// The first end past `from` of the length-prefixed records that start at
/// `cursor`.
pub open spec fn prefixed_boundary(
    bytes: Seq<u8>,
    cursor: int,
    prefix_bytes: int,
    little_endian: bool,
    length_includes_prefix: bool,
    from: int,
) -> Result<Option<int>, SourceError>
    decreases bytes.len() - cursor,
{
    if cursor >= bytes.len() || prefix_bytes < 1 {
        Ok(None)
    } else {
        match prefixed_end(bytes, cursor, prefix_bytes, little_endian, length_includes_prefix) {
            Err(e) => Err(e),
            Ok(end) => if end > from {
                Ok(Some(end))
            } else {
                prefixed_boundary(
                    bytes,
                    end,
                    prefix_bytes,
                    little_endian,
                    length_includes_prefix,
                    from,
                )
            },
        }
    }
}

/// The first record boundary past `from`, once a boundary was given at `last`.
///
/// For a delimiter this is the end of the first one that ends past `from` and
/// starts no earlier than `last`: a delimiter never begins in a record that was
/// given already. A framing that is only named has no boundaries here.
pub open spec fn boundary_past(framing: Framing, bytes: Seq<u8>, last: int, from: int) -> Result<
    Option<int>,
    SourceError,
> {
    match framing {
        Framing::Delimiter(delimiter) => match first_from(
            bytes,
            delimiter,
            search_start(delimiter.len() as int, last, from),
        ) {
            Some(at) => Ok(Some(at + delimiter.len())),
            None => Ok(None),
        },
        Framing::FixedWidth(record_bytes) => {
            let next = (from / record_bytes + 1) * record_bytes;
            if from >= bytes.len() || next > bytes.len() {
                Ok(None)
            } else {
                Ok(Some(next))
            }
        },
        Framing::LengthPrefixed { prefix_bytes, little_endian, length_includes_prefix } =>
            prefixed_boundary(bytes, 0, prefix_bytes, little_endian, length_includes_prefix, from),
        Framing::Custom(_) => Ok(None),
    }
}

/// The first offset at which a delimiter of `len` bytes may start so that it
/// ends past `from` and does not reach back over `last`.
pub open spec fn search_start(len: int, last: int, from: int) -> int {
    if last < from + 1 - len {
        from + 1 - len
    } else {
        last
    }
}

/// The smallest record boundary strictly greater than `from`.
pub open spec fn next_boundary(framing: Framing, bytes: Seq<u8>, from: int) -> Result<
    Option<int>,
    SourceError,
> {
    boundary_past(framing, bytes, 0, from)
}

/// What a boundary of a framing is, said directly: a place right after a
/// delimiter, a multiple of the width, or the end of one of the records that
/// follow one another from the first byte on.
pub open spec fn is_boundary(framing: Framing, bytes: Seq<u8>, b: int) -> bool {
    match framing {
        Framing::Delimiter(delimiter) => ends_with_delimiter(bytes, delimiter, b),
        Framing::FixedWidth(record_bytes) => 0 < b <= bytes.len() && b % record_bytes == 0,
        Framing::LengthPrefixed { prefix_bytes, little_endian, length_includes_prefix } => exists|
            from: int,
        |
            0 <= from && #[trigger] prefixed_boundary(
                bytes,
                0,
                prefix_bytes,
                little_endian,
                length_includes_prefix,
                from,
            ) == Ok::<Option<int>, SourceError>(Some(b)),
        Framing::Custom(_) => false,
    }
}

/// A record that ends where it started or earlier does not exist.
pub proof fn lemma_prefixed_end(
    bytes: Seq<u8>,
    start: int,
    prefix_bytes: int,
    little_endian: bool,
    length_includes_prefix: bool,
)
    requires
        0 <= start,
        1 <= prefix_bytes,
    ensures
        prefixed_end(bytes, start, prefix_bytes, little_endian, length_includes_prefix) matches Ok(
            end,
        ) ==> start < end <= bytes.len(),
{
}

/// A boundary of the walk lies past `from` and past where the walk starts.
pub proof fn lemma_prefixed_boundary(
    bytes: Seq<u8>,
    cursor: int,
    prefix_bytes: int,
    little_endian: bool,
    length_includes_prefix: bool,
    from: int,
)
    requires
        0 <= cursor,
        1 <= prefix_bytes,
    ensures
        prefixed_boundary(
            bytes,
            cursor,
            prefix_bytes,
            little_endian,
            length_includes_prefix,
            from,
        ) matches Ok(Some(b)) ==> from < b <= bytes.len() && cursor < b,
    decreases bytes.len() - cursor,
{
    if cursor < bytes.len() {
        lemma_prefixed_end(bytes, cursor, prefix_bytes, little_endian, length_includes_prefix);
        if let Ok(end) = prefixed_end(
            bytes,
            cursor,
            prefix_bytes,
            little_endian,
            length_includes_prefix,
        ) {
            if end <= from {
                lemma_prefixed_boundary(
                    bytes,
                    end,
                    prefix_bytes,
                    little_endian,
                    length_includes_prefix,
                    from,
                );
            }
        }
    }
}

/// Law: the boundary that a usable framing puts after an offset lies past that
/// offset and inside the source.
pub proof fn law_boundary_advances(framing: Framing, bytes: Seq<u8>, last: int, from: int)
    requires
        usable(framing),
        0 <= last,
        0 <= from,
    ensures
        boundary_past(framing, bytes, last, from) matches Ok(Some(b)) ==> from < b <= bytes.len(),
{
    match framing {
        Framing::Delimiter(delimiter) => {
            lemma_first_from_is_first(
                bytes,
                delimiter,
                search_start(delimiter.len() as int, last, from),
            );
        },
        Framing::FixedWidth(record_bytes) => {
            lemma_next_multiple(from, record_bytes);
        },
        Framing::LengthPrefixed { prefix_bytes, little_endian, length_includes_prefix } => {
            lemma_prefixed_boundary(
                bytes,
                0,
                prefix_bytes,
                little_endian,
                length_includes_prefix,
                from,
            );
        },
        Framing::Custom(_) => {},
    }
}

/// The next multiple is the smallest one past `from`.
pub proof fn lemma_next_multiple(from: int, width: int)
    requires
        0 <= from,
        0 < width,
    ensures
        from < (from / width + 1) * width <= from + width,
{
    lemma_fundamental_div_mod(from, width);
    assert((from / width + 1) * width == width * (from / width) + width) by (nonlinear_arith);
}

/// Where a boundary of a length-prefixed walk is known, no smaller offset has a
/// later first boundary.
pub proof fn lemma_prefixed_first(
    bytes: Seq<u8>,
    cursor: int,
    prefix_bytes: int,
    little_endian: bool,
    length_includes_prefix: bool,
    from: int,
    floor: int,
    b: int,
)
    requires
        0 <= cursor,
        1 <= prefix_bytes,
        prefixed_boundary(
            bytes,
            cursor,
            prefix_bytes,
            little_endian,
            length_includes_prefix,
            from,
        ) == Ok::<Option<int>, SourceError>(Some(b)),
        floor < b,
    ensures
        prefixed_boundary(
            bytes,
            cursor,
            prefix_bytes,
            little_endian,
            length_includes_prefix,
            floor,
        ) matches Ok(Some(m)) && floor < m <= b,
        b <= bytes.len(),
        cursor < b,
    decreases bytes.len() - cursor,
{
    if cursor < bytes.len() {
        lemma_prefixed_end(
            bytes,
            cursor,
            prefix_bytes,
            little_endian,
            length_includes_prefix,
        );
        if let Ok(end) = prefixed_end(
            bytes,
            cursor,
            prefix_bytes,
            little_endian,
            length_includes_prefix,
        ) {
            if end <= from {
                if floor < end {
                    lemma_prefixed_boundary(
                        bytes,
                        end,
                        prefix_bytes,
                        little_endian,
                        length_includes_prefix,
                        from,
                    );
                } else {
                    lemma_prefixed_first(
                        bytes,
                        end,
                        prefix_bytes,
                        little_endian,
                        length_includes_prefix,
                        from,
                        floor,
                        b,
                    );
                }
            }
        }
    }
}

/// A multiple of the width past `from` is no smaller than the next one.
pub proof fn lemma_later_multiple(from: int, width: int, b: int)
    requires
        0 <= from < b,
        0 < width,
        b % width == 0,
    ensures
        (from / width + 1) * width <= b,
{
    lemma_fundamental_div_mod(b, width);
    lemma_fundamental_div_mod(from, width);
    assert(from / width < b / width) by (nonlinear_arith)
        requires
            b == width * (b / width),
            from == width * (from / width) + from % width,
            from < b,
            0 <= from % width,
            width > 0,
    ;
    assert((from / width + 1) * width <= width * (b / width)) by (nonlinear_arith)
        requires
            from / width + 1 <= b / width,
            width > 0,
    ;
}

/// A delimiter that ends at `c` starts before `last`.
pub open spec fn reaches_back(framing: Framing, last: int, c: int) -> bool {
    framing matches Framing::Delimiter(delimiter) && c - delimiter.len() < last
}

/// Law: what a framing gives is a boundary past `from`, and the only boundaries
/// that it may pass over are those of delimiters that reach back over `last`.
pub proof fn law_boundary_past_is_first(framing: Framing, bytes: Seq<u8>, last: int, from: int)
    requires
        usable(framing),
        0 <= last <= from,
    ensures
        match boundary_past(framing, bytes, last, from) {
            Ok(Some(b)) => {
                &&& from < b <= bytes.len()
                &&& is_boundary(framing, bytes, b)
                &&& !reaches_back(framing, last, b)
                &&& forall|c: int|
                    from < c < b && #[trigger] is_boundary(framing, bytes, c) ==> reaches_back(
                        framing,
                        last,
                        c,
                    )
            },
            Ok(None) => forall|c: int|
                from < c && #[trigger] is_boundary(framing, bytes, c) ==> reaches_back(
                    framing,
                    last,
                    c,
                ),
            Err(_) => true,
        },
{
    law_boundary_advances(framing, bytes, last, from);
    let outcome = boundary_past(framing, bytes, last, from);
    match framing {
        Framing::Delimiter(delimiter) => {
            let len = delimiter.len() as int;
            let start = search_start(len, last, from);
            lemma_first_from_is_first(bytes, delimiter, start);
            assert forall|c: int|
                from < c && #[trigger] is_boundary(framing, bytes, c) && !reaches_back(
                    framing,
                    last,
                    c,
                ) implies outcome matches Ok(Some(b)) && b <= c by {
                assert(occurs_at(bytes, delimiter, c - len));
            }
        },
        Framing::FixedWidth(width) => {
            if let Ok(Some(b)) = outcome {
                lemma_mod_multiples_basic(from / width + 1, width);
            }
            assert forall|c: int|
                from < c && #[trigger] is_boundary(framing, bytes, c) implies outcome matches Ok(
                Some(b),
            ) && b <= c by {
                lemma_later_multiple(from, width, c);
            }
        },
        Framing::LengthPrefixed { prefix_bytes, little_endian, length_includes_prefix } => {
            assert forall|c: int|
                from < c && #[trigger] is_boundary(framing, bytes, c) implies outcome matches Ok(
                Some(b),
            ) && b <= c by {
                let asked = choose|asked: int|
                    0 <= asked && #[trigger] prefixed_boundary(
                        bytes,
                        0,
                        prefix_bytes,
                        little_endian,
                        length_includes_prefix,
                        asked,
                    ) == Ok::<Option<int>, SourceError>(Some(c));
                lemma_prefixed_first(
                    bytes,
                    0,
                    prefix_bytes,
                    little_endian,
                    length_includes_prefix,
                    asked,
                    from,
                    c,
                );
            }
        },
        Framing::Custom(_) => {},
    }
}

/// Law: the boundary after an offset is the smallest one strictly greater than
/// it. No boundary lies between the two, and where none is given, none follows.
pub proof fn law_next_boundary_is_smallest(framing: Framing, bytes: Seq<u8>, from: int)
    requires
        usable(framing),
        0 <= from,
    ensures
        match next_boundary(framing, bytes, from) {
            Ok(Some(b)) => {
                &&& from < b <= bytes.len()
                &&& is_boundary(framing, bytes, b)
                &&& forall|c: int| from < c < b ==> !#[trigger] is_boundary(framing, bytes, c)
            },
            Ok(None) => forall|c: int| from < c ==> !#[trigger] is_boundary(framing, bytes, c),
            Err(_) => true,
        },
{
    law_boundary_past_is_first(framing, bytes, 0, from);
}

/// The framing is no delimiter of which two occurrences overlap in the data.
pub open spec fn nothing_overlaps(framing: Framing, data: Seq<u8>) -> bool {
    framing matches Framing::Delimiter(delimiter) ==> occurs_apart(data, delimiter)
}

/// Law: where no two delimiters overlap, the boundary that was given last has no
/// say in the next one.
pub proof fn law_last_boundary_has_no_say(framing: Framing, bytes: Seq<u8>, last: int, from: int)
    requires
        usable(framing),
        nothing_overlaps(framing, bytes),
        last == 0 || is_boundary(framing, bytes, last),
        0 <= last <= from,
    ensures
        boundary_past(framing, bytes, last, from) == next_boundary(framing, bytes, from),
{
    if let Framing::Delimiter(delimiter) = framing {
        law_boundary_past_is_first(framing, bytes, last, from);
        law_next_boundary_is_smallest(framing, bytes, from);
        if let Ok(Some(b)) = next_boundary(framing, bytes, from) {
            assert(occurs_at(bytes, delimiter, b - delimiter.len()));
            if last > 0 {
                assert(occurs_at(bytes, delimiter, last - delimiter.len()));
            }
            assert(!reaches_back(framing, last, b));
        }
    }
}

/// A description of a framing that can be stored.
#[derive(Debug, Clone, PartialEq, Eq)]
pub enum FramingDescriptor {
    /// Records end after a byte pattern.
    Delimiter { delimiter: Vec<u8> },
    /// Records of equal size.
    FixedWidth { record_bytes: usize },
    /// Records behind a length prefix.
    LengthPrefixed { prefix_bytes: u8, little_endian: bool, length_includes_prefix: bool },
    /// A framing that is known by name only.
    Custom { name: String },
}

impl View for FramingDescriptor {
    type V = Framing;

    open spec fn view(&self) -> Framing {
        match *self {
            FramingDescriptor::Delimiter { delimiter } => Framing::Delimiter(delimiter@),
            FramingDescriptor::FixedWidth { record_bytes } => Framing::FixedWidth(
                record_bytes as int,
            ),
            FramingDescriptor::LengthPrefixed {
                prefix_bytes,
                little_endian,
                length_includes_prefix,
            } => Framing::LengthPrefixed {
                prefix_bytes: prefix_bytes as int,
                little_endian,
                length_includes_prefix,
            },
            FramingDescriptor::Custom { name } => Framing::Custom(name@),
        }
    }
}

/// A framing strategy that comes with the library.
#[derive(Debug, Clone, PartialEq, Eq)]
pub enum BuiltinFraming {
    /// Records end after a byte pattern.
    Delimiter(Vec<u8>),
    /// Records of equal size, the last one possibly shorter.
    FixedWidth { record_bytes: usize },
    /// Records of a length prefix and as many bytes as it says.
    LengthPrefixed { prefix_bytes: u8, little_endian: bool, length_includes_prefix: bool },
}

impl View for BuiltinFraming {
    type V = Framing;

    open spec fn view(&self) -> Framing {
        match *self {
            BuiltinFraming::Delimiter(delimiter) => Framing::Delimiter(delimiter@),
            BuiltinFraming::FixedWidth { record_bytes } => Framing::FixedWidth(record_bytes as int),
            BuiltinFraming::LengthPrefixed {
                prefix_bytes,
                little_endian,
                length_includes_prefix,
            } => Framing::LengthPrefixed {
                prefix_bytes: prefix_bytes as int,
                little_endian,
                length_includes_prefix,
            },
        }
    }
}

/// The name of a framing's strategy.
pub open spec fn strategy_name(framing: Framing) -> Seq<char> {
    match framing {
        Framing::Delimiter(_) => "delimiter"@,
        Framing::FixedWidth(_) => "fixed_width"@,
        Framing::LengthPrefixed { .. } => "length_prefixed"@,
        Framing::Custom(_) => "custom"@,
    }
}

/// A framing as a text for people.
pub open spec fn framing_text(framing: Framing) -> Seq<char> {
    match framing {
        Framing::Delimiter(delimiter) => "delimiter("@ + hex_text(delimiter) + ")"@,
        Framing::FixedWidth(record_bytes) => "fixed_width("@ + dec_text(record_bytes as nat)
            + ")"@,
        Framing::LengthPrefixed { prefix_bytes, little_endian, length_includes_prefix } => {
            "length_prefixed(prefix="@ + dec_text(prefix_bytes as nat) + (if little_endian {
                ", endian=le"@
            } else {
                ", endian=be"@
            }) + (if length_includes_prefix {
                ", includes_prefix=true)"@
            } else {
                ", includes_prefix=false)"@
            })
        },
        Framing::Custom(name) => "custom("@ + name + ")"@,
    }
}

/// A copy of bytes.
pub fn copy_bytes(bytes: &[u8]) -> (r: Vec<u8>)
    ensures
        r@ == bytes@,
{
    vstd::slice::slice_to_vec(bytes)
}

impl FramingDescriptor {
    /// The name of the strategy, as used in manifests.
    pub fn strategy_name(&self) -> (r: &'static str)
        ensures
            r@ == strategy_name(self@),
    {
        match self {
            FramingDescriptor::Delimiter { .. } => "delimiter",
            FramingDescriptor::FixedWidth { .. } => "fixed_width",
            FramingDescriptor::LengthPrefixed { .. } => "length_prefixed",
            FramingDescriptor::Custom { .. } => "custom",
        }
    }

    /// The framing as a text for people.
    pub fn to_string(&self) -> (r: String)
        ensures
            r@ == framing_text(self@),
    {
        let mut out = String::new();
        match self {
            FramingDescriptor::Delimiter { delimiter } => {
                out.push_str("delimiter(");
                push_hex(&mut out, delimiter.as_slice());
                out.push_str(")");
            },
            FramingDescriptor::FixedWidth { record_bytes } => {
                out.push_str("fixed_width(");
                push_decimal(&mut out, *record_bytes as u128);
                out.push_str(")");
            },
            FramingDescriptor::LengthPrefixed {
                prefix_bytes,
                little_endian,
                length_includes_prefix,
            } => {
                out.push_str("length_prefixed(prefix=");
                push_decimal(&mut out, *prefix_bytes as u128);
                out.push_str(
                    if *little_endian {
                        ", endian=le"
                    } else {
                        ", endian=be"
                    },
                );
                out.push_str(
                    if *length_includes_prefix {
                        ", includes_prefix=true)"
                    } else {
                        ", includes_prefix=false)"
                    },
                );
            },
            FramingDescriptor::Custom { name } => {
                out.push_str("custom(");
                out.push_str(name.as_str());
                out.push_str(")");
            },
        }
        proof {
            assert(out@ =~= framing_text(self@));
        }
        out
    }

    /// The built-in strategy that this describes; `None` for one that is known
    /// by name only.
    pub fn try_as_builtin(&self) -> (r: Result<Option<BuiltinFraming>, SourceError>)
        ensures
            match r {
                Ok(Some(builtin)) => builtin@ == self@ && usable(self@),
                Ok(None) => self@ is Custom,
                Err(e) => !usable(self@) && e == usable_error(self@),
            },
    {
        match self {
            FramingDescriptor::Delimiter { delimiter } => {
                match BuiltinFraming::delimiter(copy_bytes(delimiter.as_slice())) {
                    Ok(builtin) => Ok(Some(builtin)),
                    Err(e) => Err(e),
                }
            },
            FramingDescriptor::FixedWidth { record_bytes } => {
                match BuiltinFraming::fixed_width(*record_bytes) {
                    Ok(builtin) => Ok(Some(builtin)),
                    Err(e) => Err(e),
                }
            },
            FramingDescriptor::LengthPrefixed {
                prefix_bytes,
                little_endian,
                length_includes_prefix,
            } => {
                match BuiltinFraming::length_prefixed(
                    *prefix_bytes,
                    *little_endian,
                    *length_includes_prefix,
                ) {
                    Ok(builtin) => Ok(Some(builtin)),
                    Err(e) => Err(e),
                }
            },
            FramingDescriptor::Custom { .. } => Ok(None),
        }
    }
}

impl BuiltinFraming {
    /// Records that end after `delimiter`.
    pub fn delimiter(delimiter: Vec<u8>) -> (r: Result<Self, SourceError>)
        ensures
            match r {
                Ok(framing) => delimiter@.len() > 0 && framing@ == Framing::Delimiter(delimiter@),
                Err(e) => delimiter@.len() == 0 && e == SourceError::EmptyDelimiter,
            },
    {
        if delimiter.is_empty() {
            return Err(SourceError::EmptyDelimiter);
        }
        Ok(BuiltinFraming::Delimiter(delimiter))
    }

    /// Records of `record_bytes` bytes each.
    pub fn fixed_width(record_bytes: usize) -> (r: Result<Self, SourceError>)
        ensures
            match r {
                Ok(framing) => record_bytes > 0 && framing@ == Framing::FixedWidth(
                    record_bytes as int,
                ),
                Err(e) => record_bytes == 0 && e == SourceError::ZeroRecordBytes,
            },
    {
        if record_bytes == 0 {
            return Err(SourceError::ZeroRecordBytes);
        }
        Ok(BuiltinFraming::FixedWidth { record_bytes })
    }

    /// Records behind a length prefix of one to eight bytes.
    pub fn length_prefixed(
        prefix_bytes: u8,
        little_endian: bool,
        length_includes_prefix: bool,
    ) -> (r: Result<Self, SourceError>)
        ensures
            match r {
                Ok(framing) => 1 <= prefix_bytes <= 8 && framing@ == (Framing::LengthPrefixed {
                    prefix_bytes: prefix_bytes as int,
                    little_endian,
                    length_includes_prefix,
                }),
                Err(e) => !(1 <= prefix_bytes <= 8) && e == SourceError::PrefixWidth,
            },
    {
        if prefix_bytes == 0 || prefix_bytes > MAX_LENGTH_PREFIX_BYTES {
            return Err(SourceError::PrefixWidth);
        }
        Ok(BuiltinFraming::LengthPrefixed { prefix_bytes, little_endian, length_includes_prefix })
    }
}

/// Stateful boundary search over a byte source.
pub trait BoundaryScanner {
    /// The scanner can be used on a source of these bytes; on any unless it
    /// says on which.
    open spec fn ready(&self, bytes: Seq<u8>) -> bool {
        true
    }

    /// The offset that the scanner has reached; it is not asked about earlier
    /// ones.
    open spec fn floor(&self) -> int {
        0
    }

    /// The boundary after `from`; none unless the scanner says which.
    open spec fn answer(&self, bytes: Seq<u8>, from: int) -> Result<Option<int>, SourceError> {
        Ok(None)
    }

    /// The boundary after `from` once one was given at `last`; none unless the
    /// scanner says which.
    open spec fn later(&self, bytes: Seq<u8>, last: int, from: int) -> Result<
        Option<int>,
        SourceError,
    > {
        Ok(None)
    }

    /// The smallest record boundary strictly greater than `from`, or `None` when
    /// the rest of the source is the last record. Offsets grow from call to
    /// call.
    fn boundary_after<S: ByteSource>(&mut self, source: &S, from: usize) -> (r: Result<
        Option<usize>,
        SourceError,
    >)
        requires
            old(self).ready(source.bytes()),
            old(self).floor() <= from,
        ensures
            match r {
                Ok(found) => {
                    &&& final(self).ready(source.bytes())
                    &&& old(self).answer(source.bytes(), from as int) == Ok::<
                        Option<int>,
                        SourceError,
                    >(
                        match found {
                            Some(b) => Some(b as int),
                            None => None,
                        },
                    )
                    &&& found matches Some(b) ==> from < b <= source.bytes().len() && final(
                        self).floor() <= b
                    &&& forall|f: int|
                        final(self).floor() <= f ==> #[trigger] final(self).answer(
                            source.bytes(),
                            f,
                        ) == (match found {
                            Some(b) => old(self).later(source.bytes(), b as int, f),
                            None => old(self).answer(source.bytes(), f),
                        })
                    &&& forall|last: int, f: int|
                        final(self).floor() <= f ==> #[trigger] final(self).later(
                            source.bytes(),
                            last,
                            f,
                        ) == old(self).later(source.bytes(), last, f)
                },
                Err(e) => old(self).answer(source.bytes(), from as int) == Err::<
                    Option<int>,
                    SourceError,
                >(e) || source.read_fails(e),
            },
    ;
}

/// A strategy that knows where records end.
pub trait FramingStrategy: Send + Sync {
    /// The scanner that the strategy makes.
    type Scanner<'a>: BoundaryScanner where Self: 'a;

    /// The parameters of the strategy can be used.
    open spec fn valid(&self) -> bool {
        true
    }

    /// What [`describe`](Self::describe) says of the strategy; a strategy
    /// without a name unless it says what it is.
    open spec fn framing(&self) -> Framing {
        Framing::Custom(Seq::empty())
    }

    /// The record boundary that the strategy puts after `from` once it gave one
    /// at `last`; none unless it says which.
    open spec fn boundary(&self, bytes: Seq<u8>, last: int, from: int) -> Result<
        Option<int>,
        SourceError,
    > {
        Ok(None)
    }

    /// The buffer that a scanner needs.
    open spec fn needs(&self) -> int {
        1
    }

    /// A description for manifests.
    fn describe(&self) -> (r: FramingDescriptor)
        ensures
            r@ == self.framing(),
    ;

    /// The buffer that a scanner needs, in bytes.
    fn minimum_buffer_bytes(&self) -> (r: usize)
        ensures
            r == self.needs(),
    ;

    /// A scanner at the start of a source, with `buffer` as scratch space.
    fn scanner<'a>(&'a self, buffer: &'a mut [u8]) -> (r: Self::Scanner<'a>)
        requires
            self.valid(),
        ensures
            r.floor() <= 0,
            forall|bytes: Seq<u8>, f: int|
                0 <= f ==> #[trigger] r.answer(bytes, f) == self.boundary(bytes, 0, f),
            forall|bytes: Seq<u8>, last: int, f: int|
                0 <= f ==> #[trigger] r.later(bytes, last, f) == self.boundary(bytes, last, f),
            forall|bytes: Seq<u8>|
                old(buffer)@.len() > 0 && (old(buffer)@.len() >= self.needs() || bytes.len()
                    < self.needs()) ==> #[trigger] r.ready(bytes),
    ;
}

/// Finds delimiters through a buffer, and remembers the last boundary it gave.
#[derive(Debug)]
pub struct DelimiterScanner<'a> {
    buffer: &'a mut [u8],
    delimiter: &'a [u8],
    last: usize,
}

impl<'a> BoundaryScanner for DelimiterScanner<'a> {
    closed spec fn ready(&self, bytes: Seq<u8>) -> bool {
        &&& self.delimiter@.len() > 0
        &&& self.buffer@.len() > 0
        &&& self.buffer@.len() >= self.delimiter@.len() || bytes.len() < self.delimiter@.len()
    }

    closed spec fn floor(&self) -> int {
        self.last as int
    }

    closed spec fn answer(&self, bytes: Seq<u8>, from: int) -> Result<Option<int>, SourceError> {
        boundary_past(Framing::Delimiter(self.delimiter@), bytes, self.last as int, from)
    }

    closed spec fn later(&self, bytes: Seq<u8>, last: int, from: int) -> Result<
        Option<int>,
        SourceError,
    > {
        boundary_past(Framing::Delimiter(self.delimiter@), bytes, last, from)
    }

    fn boundary_after<S: ByteSource>(&mut self, source: &S, from: usize) -> (r: Result<
        Option<usize>,
        SourceError,
    >) {
        let file_len: usize = source.len();
        let dlen: usize = self.delimiter.len();
        let reach: usize = dlen - 1;
        let start: usize = if from >= reach && self.last < from - reach {
            from - reach
        } else {
            self.last
        };
        proof {
            assert(start == search_start(dlen as int, self.last as int, from as int));
            lemma_first_from_is_first(source.bytes(), self.delimiter@, start as int);
        }
        match find_pattern_from(source, start, self.delimiter, self.buffer) {
            Ok(Some(position)) => {
                let end: usize = position + dlen;
                self.last = end;
                Ok(Some(end))
            },
            Ok(None) => Ok(None),
            Err(e) => Err(e),
        }
    }
}

/// Steps through records of equal size.
#[derive(Debug)]
pub struct FixedWidthScanner {
    record_bytes: usize,
}

impl BoundaryScanner for FixedWidthScanner {
    closed spec fn ready(&self, bytes: Seq<u8>) -> bool {
        self.record_bytes > 0
    }

    closed spec fn floor(&self) -> int {
        0
    }

    closed spec fn answer(&self, bytes: Seq<u8>, from: int) -> Result<Option<int>, SourceError> {
        next_boundary(Framing::FixedWidth(self.record_bytes as int), bytes, from)
    }

    closed spec fn later(&self, bytes: Seq<u8>, last: int, from: int) -> Result<
        Option<int>,
        SourceError,
    > {
        next_boundary(Framing::FixedWidth(self.record_bytes as int), bytes, from)
    }

    fn boundary_after<S: ByteSource>(&mut self, source: &S, from: usize) -> (r: Result<
        Option<usize>,
        SourceError,
    >) {
        let file_len: usize = source.len();
        if from >= file_len {
            return Ok(None);
        }
        let width: usize = self.record_bytes;
        proof {
            lemma_next_multiple(from as int, width as int);
            lemma_fundamental_div_mod(from as int, width as int);
            assert((from as int / width as int + 1) * width as int <= 0x1_ffff_ffff_ffff_fffe);
        }
        let next: u128 = (from as u128 / width as u128 + 1) * width as u128;
        if next > file_len as u128 {
            Ok(None)
        } else {
            Ok(Some(next as usize))
        }
    }
}

/// Walks length-prefixed records, with a window of the source cached in the
/// buffer.
#[derive(Debug)]
pub struct LengthPrefixedScanner<'a> {
    buffer: &'a mut [u8],
    cursor: usize,
    window_start: usize,
    window_len: usize,
    prefix_bytes: u8,
    little_endian: bool,
    length_includes_prefix: bool,
}

/// `256` to the power `n`.
spec fn pow256(n: nat) -> nat
    decreases n,
{
    if n == 0 {
        1
    } else {
        256 * pow256((n - 1) as nat)
    }
}

proof fn lemma_le_bound(s: Seq<u8>)
    ensures
        le_value(s) < pow256(s.len()),
    decreases s.len(),
{
    if s.len() > 0 {
        lemma_le_bound(s.drop_first());
    }
}

proof fn lemma_be_bound(s: Seq<u8>)
    ensures
        be_value(s) < pow256(s.len()),
    decreases s.len(),
{
    if s.len() > 0 {
        lemma_be_bound(s.drop_last());
    }
}

proof fn lemma_pow256_small(n: nat)
    requires
        n <= 7,
    ensures
        pow256(n) <= 0x100_0000_0000_0000,
{
    reveal_with_fuel(pow256, 9);
}

/// Unsigned value of up to eight bytes.
fn read_prefix(bytes: &[u8], little_endian: bool) -> (value: u64)
    requires
        bytes@.len() <= 8,
    ensures
        value == (if little_endian {
            le_value(bytes@)
        } else {
            be_value(bytes@)
        }),
{
    let len: usize = bytes.len();
    let mut value: u64 = 0;
    if little_endian {
        let mut index: usize = len;
        proof {
            assert(bytes@.skip(len as int) =~= Seq::empty());
        }
        while index > 0
            invariant
                index <= len == bytes@.len() <= 8,
                value == le_value(bytes@.skip(index as int)),
            decreases index,
        {
            proof {
                let tail = bytes@.skip(index as int);
                let longer = bytes@.skip(index - 1);
                assert(longer.drop_first() =~= tail);
                lemma_le_bound(tail);
                lemma_pow256_small(tail.len());
            }
            index = index - 1;
            value = value * 256 + bytes[index] as u64;
        }
        proof {
            assert(bytes@.skip(0) =~= bytes@);
        }
    } else {
        let mut index: usize = 0;
        proof {
            assert(bytes@.take(0) =~= Seq::empty());
        }
        while index < len
            invariant
                index <= len == bytes@.len() <= 8,
                value == be_value(bytes@.take(index as int)),
            decreases len - index,
        {
            proof {
                let head = bytes@.take(index as int);
                let longer = bytes@.take(index + 1);
                assert(longer.drop_last() =~= head);
                assert(longer.last() == bytes@[index as int]);
                lemma_be_bound(head);
                lemma_pow256_small(head.len());
            }
            value = value * 256 + bytes[index] as u64;
            index = index + 1;
        }
        proof {
            assert(bytes@.take(len as int) =~= bytes@);
        }
    }
    value
}

/// Where the record at `cursor` ends, given the number in its prefix.
fn record_end(
    file_len: usize,
    cursor: usize,
    prefix: u64,
    prefix_bytes: u8,
    length_includes_prefix: bool,
) -> (r: Result<usize, SourceError>)
    requires
        cursor <= file_len,
    ensures
        match r {
            Ok(end) => {
                &&& end <= file_len
                &&& end == cursor + prefix + if length_includes_prefix {
                    0
                } else {
                    prefix_bytes as int
                }
                &&& length_includes_prefix ==> prefix >= prefix_bytes
                &&& !length_includes_prefix ==> prefix + prefix_bytes <= u64::MAX
            },
            Err(e) => if length_includes_prefix && prefix < prefix_bytes {
                e == SourceError::PrefixTooSmall
            } else if !length_includes_prefix && prefix + prefix_bytes > u64::MAX {
                e == SourceError::RecordLengthOverflow
            } else {
                e == SourceError::RecordExceedsFile && cursor + prefix + (
                if length_includes_prefix {
                    0
                } else {
                    prefix_bytes as int
                }) > file_len
            },
        },
{
    let record_len: u64 = if length_includes_prefix {
        if prefix < prefix_bytes as u64 {
            return Err(SourceError::PrefixTooSmall);
        }
        prefix
    } else {
        match prefix.checked_add(prefix_bytes as u64) {
            Some(total) => total,
            None => {
                return Err(SourceError::RecordLengthOverflow);
            },
        }
    };
    let end: u128 = cursor as u128 + record_len as u128;
    if end > file_len as u128 {
        return Err(SourceError::RecordExceedsFile);
    }
    Ok(end as usize)
}

impl<'a> LengthPrefixedScanner<'a> {
    /// The prefix at the cursor lies in the cached window.
    closed spec fn in_window(&self) -> bool {
        self.window_start <= self.cursor && self.cursor + self.prefix_bytes <= self.window_start
            + self.window_len
    }

    /// Bring the prefix at the cursor into the window; `false` when fewer bytes
    /// than a prefix remain.
    fn ensure_prefix<S: ByteSource>(&mut self, source: &S) -> (r: Result<bool, SourceError>)
        requires
            old(self).ready(source.bytes()),
        ensures
            match r {
                Ok(present) => {
                    &&& final(self).ready(source.bytes())
                    &&& final(self).cursor == old(self).cursor
                    &&& final(self).prefix_bytes == old(self).prefix_bytes
                    &&& final(self).little_endian == old(self).little_endian
                    &&& final(self).length_includes_prefix == old(self).length_includes_prefix
                    &&& present ==> final(self).in_window()
                    &&& present == (source.bytes().len() - old(self).cursor >= old(
                        self).prefix_bytes)
                },
                Err(e) => source.read_fails(e),
            },
    {
        let file_len: usize = source.len();
        let width: usize = self.prefix_bytes as usize;
        if self.window_start <= self.cursor && self.cursor - self.window_start <= self.window_len
            && width <= self.window_len - (self.cursor - self.window_start) {
            return Ok(true);
        }
        let room: usize = file_len - self.cursor;
        let want: usize = if self.buffer.len() < room {
            self.buffer.len()
        } else {
            room
        };
        if want < width {
            return Ok(false);
        }
        match fill_buffer(source, self.cursor, self.buffer, want) {
            Ok(_) => {},
            Err(e) => {
                return Err(e);
            },
        }
        self.window_start = self.cursor;
        self.window_len = want;
        Ok(true)
    }
}

impl<'a> BoundaryScanner for LengthPrefixedScanner<'a> {
    closed spec fn ready(&self, bytes: Seq<u8>) -> bool {
        &&& 1 <= self.prefix_bytes <= 8
        &&& self.cursor <= bytes.len()
        &&& self.buffer@.len() >= self.prefix_bytes || bytes.len() < self.prefix_bytes
        &&& self.window_len <= self.buffer@.len()
        &&& self.window_start + self.window_len <= bytes.len()
        &&& self.buffer@.take(self.window_len as int) == bytes.subrange(
            self.window_start as int,
            self.window_start + self.window_len,
        )
    }

    closed spec fn floor(&self) -> int {
        self.cursor as int
    }

    closed spec fn answer(&self, bytes: Seq<u8>, from: int) -> Result<Option<int>, SourceError> {
        prefixed_boundary(
            bytes,
            self.cursor as int,
            self.prefix_bytes as int,
            self.little_endian,
            self.length_includes_prefix,
            from,
        )
    }

    closed spec fn later(&self, bytes: Seq<u8>, last: int, from: int) -> Result<
        Option<int>,
        SourceError,
    > {
        self.answer(bytes, from)
    }

    fn boundary_after<S: ByteSource>(&mut self, source: &S, from: usize) -> (r: Result<
        Option<usize>,
        SourceError,
    >) {
        let file_len: usize = source.len();
        let ghost bytes = source.bytes();
        let ghost k = self.prefix_bytes as int;
        let ghost le = self.little_endian;
        let ghost inc = self.length_includes_prefix;
        while self.cursor < file_len
            invariant
                bytes == source.bytes(),
                file_len == bytes.len(),
                self.ready(bytes),
                self.cursor <= file_len,
                self.cursor <= from || self.cursor == old(self).cursor,
                old(self).cursor <= from,
                k == self.prefix_bytes == old(self).prefix_bytes,
                le == self.little_endian,
                le == old(self).little_endian,
                inc == self.length_includes_prefix,
                inc == old(self).length_includes_prefix,
                forall|f: int|
                    self.cursor <= f || from <= f ==> #[trigger] prefixed_boundary(
                        bytes,
                        old(self).cursor as int,
                        k,
                        le,
                        inc,
                        f,
                    ) == prefixed_boundary(bytes, self.cursor as int, k, le, inc, f),
            decreases file_len - self.cursor,
        {
            let start: usize = self.cursor;
            let present: bool = match self.ensure_prefix(source) {
                Ok(present) => present,
                Err(e) => {
                    return Err(e);
                },
            };
            if !present {
                return Err(SourceError::TruncatedPrefix);
            }
            let relative: usize = start - self.window_start;
            let width: usize = self.prefix_bytes as usize;
            let prefix_slice = vstd::slice::slice_subrange(
                self.buffer,
                relative,
                relative + width,
            );
            proof {
                assert(prefix_slice@ =~= bytes.subrange(start as int, start + width)) by {
                    let window = self.buffer@.take(self.window_len as int);
                    assert forall|i: int| 0 <= i < width implies prefix_slice@[i] == bytes[start
                        + i] by {
                        assert(prefix_slice@[i] == window[relative + i]);
                        assert(window[relative + i] == bytes[self.window_start + relative + i]);
                    }
                }
                lemma_prefixed_end(bytes, start as int, k, le, inc);
            }
            let prefix: u64 = read_prefix(prefix_slice, self.little_endian);
            let end: usize = match record_end(
                file_len,
                start,
                prefix,
                self.prefix_bytes,
                self.length_includes_prefix,
            ) {
                Ok(end) => end,
                Err(e) => {
                    return Err(e);
                },
            };
            self.cursor = end;
            if end > from {
                return Ok(Some(end));
            }
        }
        Ok(None)
    }
}

/// A scanner of one of the built-in strategies.
#[derive(Debug)]
pub enum BuiltinScanner<'a> {
    Delimiter(DelimiterScanner<'a>),
    FixedWidth(FixedWidthScanner),
    LengthPrefixed(LengthPrefixedScanner<'a>),
}

impl<'a> BoundaryScanner for BuiltinScanner<'a> {
    closed spec fn ready(&self, bytes: Seq<u8>) -> bool {
        match *self {
            BuiltinScanner::Delimiter(scanner) => scanner.ready(bytes),
            BuiltinScanner::FixedWidth(scanner) => scanner.ready(bytes),
            BuiltinScanner::LengthPrefixed(scanner) => scanner.ready(bytes),
        }
    }

    closed spec fn floor(&self) -> int {
        match *self {
            BuiltinScanner::Delimiter(scanner) => scanner.floor(),
            BuiltinScanner::FixedWidth(scanner) => scanner.floor(),
            BuiltinScanner::LengthPrefixed(scanner) => scanner.floor(),
        }
    }

    closed spec fn answer(&self, bytes: Seq<u8>, from: int) -> Result<Option<int>, SourceError> {
        match *self {
            BuiltinScanner::Delimiter(scanner) => scanner.answer(bytes, from),
            BuiltinScanner::FixedWidth(scanner) => scanner.answer(bytes, from),
            BuiltinScanner::LengthPrefixed(scanner) => scanner.answer(bytes, from),
        }
    }

    closed spec fn later(&self, bytes: Seq<u8>, last: int, from: int) -> Result<
        Option<int>,
        SourceError,
    > {
        match *self {
            BuiltinScanner::Delimiter(scanner) => scanner.later(bytes, last, from),
            BuiltinScanner::FixedWidth(scanner) => scanner.later(bytes, last, from),
            BuiltinScanner::LengthPrefixed(scanner) => scanner.later(bytes, last, from),
        }
    }

    fn boundary_after<S: ByteSource>(&mut self, source: &S, from: usize) -> (r: Result<
        Option<usize>,
        SourceError,
    >) {
        match self {
            BuiltinScanner::Delimiter(scanner) => scanner.boundary_after(source, from),
            BuiltinScanner::FixedWidth(scanner) => scanner.boundary_after(source, from),
            BuiltinScanner::LengthPrefixed(scanner) => scanner.boundary_after(source, from),
        }
    }
}

impl FramingStrategy for BuiltinFraming {
    type Scanner<'a> = BuiltinScanner<'a>;

    open spec fn valid(&self) -> bool {
        usable(self@)
    }

    open spec fn framing(&self) -> Framing {
        self@
    }

    open spec fn boundary(&self, bytes: Seq<u8>, last: int, from: int) -> Result<
        Option<int>,
        SourceError,
    > {
        boundary_past(self@, bytes, last, from)
    }

    open spec fn needs(&self) -> int {
        match *self {
            BuiltinFraming::Delimiter(delimiter) => delimiter@.len() as int,
            BuiltinFraming::FixedWidth { .. } => 1,
            BuiltinFraming::LengthPrefixed { prefix_bytes, .. } => prefix_bytes as int,
        }
    }

    fn describe(&self) -> (r: FramingDescriptor) {
        match self {
            BuiltinFraming::Delimiter(delimiter) => FramingDescriptor::Delimiter {
                delimiter: copy_bytes(delimiter.as_slice()),
            },
            BuiltinFraming::FixedWidth { record_bytes } => FramingDescriptor::FixedWidth {
                record_bytes: *record_bytes,
            },
            BuiltinFraming::LengthPrefixed {
                prefix_bytes,
                little_endian,
                length_includes_prefix,
            } => FramingDescriptor::LengthPrefixed {
                prefix_bytes: *prefix_bytes,
                little_endian: *little_endian,
                length_includes_prefix: *length_includes_prefix,
            },
        }
    }

    fn minimum_buffer_bytes(&self) -> (r: usize) {
        match self {
            BuiltinFraming::Delimiter(delimiter) => delimiter.len(),
            BuiltinFraming::FixedWidth { .. } => 1,
            BuiltinFraming::LengthPrefixed { prefix_bytes, .. } => *prefix_bytes as usize,
        }
    }

    fn scanner<'a>(&'a self, buffer: &'a mut [u8]) -> (r: BuiltinScanner<'a>) {
        match self {
            BuiltinFraming::Delimiter(delimiter) => BuiltinScanner::Delimiter(
                DelimiterScanner { buffer, delimiter: delimiter.as_slice(), last: 0 },
            ),
            BuiltinFraming::FixedWidth { record_bytes } => BuiltinScanner::FixedWidth(
                FixedWidthScanner { record_bytes: *record_bytes },
            ),
            BuiltinFraming::LengthPrefixed {
                prefix_bytes,
                little_endian,
                length_includes_prefix,
            } => {
                let scanner = LengthPrefixedScanner {
                    buffer,
                    cursor: 0,
                    window_start: 0,
                    window_len: 0,
                    prefix_bytes: *prefix_bytes,
                    little_endian: *little_endian,
                    length_includes_prefix: *length_includes_prefix,
                };
                proof {
                    assert forall|bytes: Seq<u8>| scanner.buffer@.take(0) =~= #[trigger] bytes.subrange(0, 0) by {}
                }
                BuiltinScanner::LengthPrefixed(scanner)
            },
        }
    }
}

} // verus!
