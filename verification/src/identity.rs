//! Which file a plan or an index was made for.

use crate::error::SourceError;
use crate::source::{fill_buffer, ByteSource};
use crate::text::{hex_char, hex_digit_char, same_text};
use vstd::prelude::*;

verus! {

/// Bytes sampled from each end of a file for its fingerprint.
pub const IDENTITY_SAMPLE_BYTES: usize = 64 * 1024;

/// Start value of the 64-bit FNV-1a hash.
pub const FNV1A64_OFFSET_BASIS: u64 = 0xcbf2_9ce4_8422_2325;

/// Multiplier of the 64-bit FNV-1a hash.
pub const FNV1A64_PRIME: u64 = 0x0000_0100_0000_01b3;

/// The 64-bit FNV-1a hash of `bytes`, continued from `hash`.
pub open spec fn fnv1a64(hash: u64, bytes: Seq<u8>) -> u64
    decreases bytes.len(),
{
    if bytes.len() == 0 {
        hash
    } else {
        (fnv1a64(hash, bytes.drop_last()) ^ bytes.last() as u64).wrapping_mul(FNV1A64_PRIME)
    }
}

/// Hashing goes piece by piece.
pub proof fn lemma_fnv_concat(hash: u64, a: Seq<u8>, b: Seq<u8>)
    ensures
        fnv1a64(hash, a + b) == fnv1a64(fnv1a64(hash, a), b),
    decreases b.len(),
{
    if b.len() == 0 {
        assert(a + b =~= a);
    } else {
        lemma_fnv_concat(hash, a, b.drop_last());
        assert((a + b).drop_last() =~= a + b.drop_last());
        assert((a + b).last() == b.last());
    }
}

/// The eight bytes of a number, least significant first.
pub open spec fn le_bytes(value: u64) -> Seq<u8> {
    Seq::new(8, |i: int| byte_of(value, i))
}

/// Byte `i` of a number, counted from the least significant.
pub open spec fn byte_of(value: u64, i: int) -> u8 {
    ((value as int / vstd::arithmetic::power::pow(256, i as nat)) % 256) as u8
}

/// The sixteen hexadecimal digits of a number.
pub open spec fn hex16(value: u64) -> Seq<char> {
    Seq::new(16, |i: int| hex_char(nibble_of(value, 15 - i)))
}

/// Four bits of a number, counted from the least significant.
pub open spec fn nibble_of(value: u64, i: int) -> int {
    (value as int / vstd::arithmetic::power::pow(16, i as nat)) % 16
}

/// The fingerprint of a size and of sampled bytes.
pub open spec fn fingerprint_text(size: u64, sampled: Seq<u8>) -> Seq<char> {
    "fnv1a64:0x"@ + hex16(fnv1a64(FNV1A64_OFFSET_BASIS, le_bytes(size) + sampled))
}

/// The bytes that stand for a file: all of a small one, both ends of a large
/// one.
pub open spec fn sampled_bytes(bytes: Seq<u8>) -> Seq<u8> {
    if bytes.len() <= 2 * IDENTITY_SAMPLE_BYTES {
        bytes
    } else {
        bytes.take(IDENTITY_SAMPLE_BYTES as int) + bytes.skip(
            bytes.len() - IDENTITY_SAMPLE_BYTES,
        )
    }
}

fn fnv_update(hash: u64, bytes: &[u8]) -> (r: u64)
    ensures
        r == fnv1a64(hash, bytes@),
{
    let mut value: u64 = hash;
    let mut i: usize = 0;
    proof {
        assert(bytes@.take(0) =~= Seq::empty());
    }
    while i < bytes.len()
        invariant
            i <= bytes@.len(),
            value == fnv1a64(hash, bytes@.take(i as int)),
        decreases bytes@.len() - i,
    {
        proof {
            let longer = bytes@.take(i + 1);
            assert(longer.drop_last() =~= bytes@.take(i as int));
            assert(longer.last() == bytes@[i as int]);
        }
        value = (value ^ bytes[i] as u64).wrapping_mul(FNV1A64_PRIME);
        i = i + 1;
    }
    proof {
        assert(bytes@.take(i as int) =~= bytes@);
    }
    value
}

/// Dividing by a base step by step divides by its power.
proof fn lemma_div_step(value: int, base: nat, i: nat)
    requires
        0 <= value,
        1 < base,
    ensures
        (value / vstd::arithmetic::power::pow(base as int, i)) / base as int == value
            / vstd::arithmetic::power::pow(base as int, i + 1),
{
    let p = vstd::arithmetic::power::pow(base as int, i);
    vstd::arithmetic::power::lemma_pow_positive(base as int, i);
    vstd::arithmetic::power::lemma_pow_adds(base as int, i, 1);
    vstd::arithmetic::power::lemma_pow1(base as int);
    vstd::arithmetic::div_mod::lemma_div_denominator(value, p, base as int);
}

fn size_bytes(size: u64) -> (r: Vec<u8>)
    ensures
        r@ == le_bytes(size),
{
    let mut out: Vec<u8> = Vec::new();
    let mut rest: u64 = size;
    let mut i: usize = 0;
    proof {
        vstd::arithmetic::power::lemma_pow0(256);
        vstd::arithmetic::div_mod::lemma_div_basics(size as int);
    }
    while i < 8
        invariant
            i <= 8,
            out@.len() == i,
            rest == size as int / vstd::arithmetic::power::pow(256, i as nat),
            forall|k: int| 0 <= k < i ==> #[trigger] out@[k] == byte_of(size, k),
        decreases 8 - i,
    {
        out.push((rest % 256) as u8);
        proof {
            lemma_div_step(size as int, 256, i as nat);
        }
        rest = rest / 256;
        i = i + 1;
    }
    proof {
        assert(out@ =~= le_bytes(size));
    }
    out
}

/// Append the sixteen hexadecimal digits of a number.
fn push_hex16(out: &mut String, value: u64)
    ensures
        final(out)@ == old(out)@ + hex16(value),
{
    let mut digits: Vec<char> = Vec::new();
    let mut rest: u64 = value;
    let mut i: usize = 0;
    proof {
        vstd::arithmetic::power::lemma_pow0(16);
        vstd::arithmetic::div_mod::lemma_div_basics(value as int);
    }
    while i < 16
        invariant
            i <= 16,
            digits@.len() == i,
            rest == value as int / vstd::arithmetic::power::pow(16, i as nat),
            forall|k: int| 0 <= k < i ==> #[trigger] digits@[k] == hex_char(nibble_of(value, k)),
        decreases 16 - i,
    {
        digits.push(hex_digit_char((rest % 16) as u8));
        proof {
            lemma_div_step(value as int, 16, i as nat);
        }
        rest = rest / 16;
        i = i + 1;
    }
    let mut k: usize = 0;
    proof {
        assert(out@ =~= old(out)@ + hex16(value).take(0));
    }
    while k < 16
        invariant
            k <= 16,
            digits@.len() == 16,
            forall|j: int| 0 <= j < 16 ==> #[trigger] digits@[j] == hex_char(nibble_of(value, j)),
            out@ == old(out)@ + hex16(value).take(k as int),
        decreases 16 - k,
    {
        out.push(digits[15 - k]);
        proof {
            assert(hex16(value)[k as int] == digits@[15 - k]);
            assert(out@ =~= old(out)@ + hex16(value).take(k + 1));
        }
        k = k + 1;
    }
    proof {
        assert(hex16(value).take(16) =~= hex16(value));
    }
}

/// The fingerprint of a size and of sampled bytes, given in two pieces.
pub fn fingerprint_bytes(size: u64, head: &[u8], tail: &[u8]) -> (r: String)
    ensures
        r@ == fingerprint_text(size, head@ + tail@),
{
    let prefix = size_bytes(size);
    let mut hash: u64 = fnv_update(FNV1A64_OFFSET_BASIS, prefix.as_slice());
    hash = fnv_update(hash, head);
    hash = fnv_update(hash, tail);
    proof {
        lemma_fnv_concat(FNV1A64_OFFSET_BASIS, le_bytes(size), head@ + tail@);
        lemma_fnv_concat(fnv1a64(FNV1A64_OFFSET_BASIS, le_bytes(size)), head@, tail@);
    }
    let mut out = String::new();
    out.push_str("fnv1a64:0x");
    push_hex16(&mut out, hash);
    proof {
        assert(out@ =~= fingerprint_text(size, head@ + tail@));
    }
    out
}

/// The fingerprint of a source: its size and the bytes that stand for it.
pub fn sample_fingerprint<S: ByteSource>(source: &S) -> (r: Result<String, SourceError>)
    ensures
        match r {
            Ok(text) => text@ == fingerprint_text(
                source.bytes().len() as u64,
                sampled_bytes(source.bytes()),
            ),
            Err(e) => source.read_fails(e),
        },
{
    let len: usize = source.len();
    let whole: bool = len <= 2 * IDENTITY_SAMPLE_BYTES;
    let head_len: usize = if whole {
        len
    } else {
        IDENTITY_SAMPLE_BYTES
    };
    let tail_len: usize = if whole {
        0
    } else {
        IDENTITY_SAMPLE_BYTES
    };
    let mut head: Vec<u8> = vec![0u8; head_len];
    match fill_buffer(source, 0, head.as_mut_slice(), head_len) {
        Ok(_) => {},
        Err(e) => {
            return Err(e);
        },
    }
    let mut tail: Vec<u8> = vec![0u8; tail_len];
    match fill_buffer(source, len - tail_len, tail.as_mut_slice(), tail_len) {
        Ok(_) => {},
        Err(e) => {
            return Err(e);
        },
    }
    proof {
        assert(head@ =~= head@.take(head_len as int));
        assert(tail@ =~= tail@.take(tail_len as int));
        assert(head@ + tail@ =~= sampled_bytes(source.bytes()));
    }
    Ok(fingerprint_bytes(len as u64, head.as_slice(), tail.as_slice()))
}

/// The identity of a file, as mathematical data.
#[verifier::ext_equal]
pub struct Identity {
    pub size: nat,
    pub modified_unix_nanos: Option<nat>,
    pub device: Option<nat>,
    pub inode: Option<nat>,
    pub sample_fingerprint: Option<Seq<char>>,
    pub sample_bytes: nat,
}

/// What is known of a file without reading all of it. Fields that the platform
/// does not offer are `None`.
#[derive(Debug, Clone, PartialEq, Eq)]
pub struct FileIdentity {
    /// Size in bytes.
    pub size: u64,
    /// Time of the last change, in nanoseconds since the epoch.
    pub modified_unix_nanos: Option<u128>,
    /// The device or volume.
    pub device: Option<u64>,
    /// The file's number on its device.
    pub inode: Option<u64>,
    /// Fingerprint over the size and both ends of the file.
    pub sample_fingerprint: Option<String>,
    /// Bytes sampled from each end.
    pub sample_bytes: usize,
}

/// An optional number, as mathematical data.
pub open spec fn opt_u64(value: Option<u64>) -> Option<nat> {
    match value {
        Some(v) => Some(v as nat),
        None => None,
    }
}

/// An optional number, as mathematical data.
pub open spec fn opt_u128(value: Option<u128>) -> Option<nat> {
    match value {
        Some(v) => Some(v as nat),
        None => None,
    }
}

/// An optional text, as mathematical data.
pub open spec fn opt_text(value: Option<String>) -> Option<Seq<char>> {
    match value {
        Some(v) => Some(v@),
        None => None,
    }
}

impl View for FileIdentity {
    type V = Identity;

    open spec fn view(&self) -> Identity {
        Identity {
            size: self.size as nat,
            modified_unix_nanos: opt_u128(self.modified_unix_nanos),
            device: opt_u64(self.device),
            inode: opt_u64(self.inode),
            sample_fingerprint: opt_text(self.sample_fingerprint),
            sample_bytes: self.sample_bytes as nat,
        }
    }
}

fn same_u64(a: Option<u64>, b: Option<u64>) -> (r: bool)
    ensures
        r == (opt_u64(a) == opt_u64(b)),
{
    match (a, b) {
        (Some(x), Some(y)) => x == y,
        (None, None) => true,
        _ => false,
    }
}

fn same_u128(a: Option<u128>, b: Option<u128>) -> (r: bool)
    ensures
        r == (opt_u128(a) == opt_u128(b)),
{
    match (a, b) {
        (Some(x), Some(y)) => x == y,
        (None, None) => true,
        _ => false,
    }
}

fn same_optional_text(a: &Option<String>, b: &Option<String>) -> (r: bool)
    ensures
        r == (opt_text(*a) == opt_text(*b)),
{
    match (a, b) {
        (Some(x), Some(y)) => same_text(x.as_str(), y.as_str()),
        (None, None) => true,
        _ => false,
    }
}

impl FileIdentity {
    /// Whether two identities agree in every field.
    pub fn same(&self, other: &FileIdentity) -> (r: bool)
        ensures
            r == (self@ == other@),
    {
        self.size == other.size && same_u128(self.modified_unix_nanos, other.modified_unix_nanos)
            && same_u64(self.device, other.device) && same_u64(self.inode, other.inode)
            && same_optional_text(&self.sample_fingerprint, &other.sample_fingerprint)
            && self.sample_bytes == other.sample_bytes
    }

    /// A copy.
    pub fn duplicate(&self) -> (r: FileIdentity)
        ensures
            r@ == self@,
    {
        FileIdentity {
            size: self.size,
            modified_unix_nanos: self.modified_unix_nanos,
            device: self.device,
            inode: self.inode,
            sample_fingerprint: match &self.sample_fingerprint {
                Some(text) => Some(text.clone()),
                None => None,
            },
            sample_bytes: self.sample_bytes,
        }
    }
}

} // verus!
