//! What a fingerprint says of the bytes it was made from.

use crate::identity::{
    byte_of, fingerprint_text, fnv1a64, hex16, le_bytes, nibble_of, sampled_bytes,
    FNV1A64_OFFSET_BASIS, FNV1A64_PRIME,
};
use crate::text::hex_char;
use vstd::arithmetic::div_mod::{
    lemma_basic_div, lemma_div_basics, lemma_div_denominator, lemma_fundamental_div_mod,
};
use vstd::arithmetic::power::{lemma_pow0, lemma_pow1, lemma_pow_adds, lemma_pow_positive, pow};
use vstd::prelude::*;

verus! {

/// Law: both ends of a source are sampled. Two sources of the same size that
/// differ in one of the first 65536 bytes, or in one of the last 65536, have
/// different sampled bytes.
pub proof fn law_samples_tell_ends_apart(a: Seq<u8>, b: Seq<u8>, p: int)
    requires
        a.len() == b.len(),
        0 <= p < a.len(),
        p < 65536 || p >= a.len() - 65536,
        a[p] != b[p],
    ensures
        sampled_bytes(a) != sampled_bytes(b),
{
    let len = a.len() as int;
    let x = sampled_bytes(a);
    let y = sampled_bytes(b);
    if len <= 131072 {
        assert(x[p] != y[p]);
    } else if p < 65536 {
        assert(x[p] == a[p]);
        assert(y[p] == b[p]);
    } else {
        let q = p - (len - 65536) + 65536;
        assert(x[q] == a[p]);
        assert(y[q] == b[p]);
    }
}

/// Law: nothing but both ends of a source is sampled. Two sources of the same
/// size that agree in the first and in the last 65536 bytes have the same sampled
/// bytes.
pub proof fn law_samples_hold_only_ends(a: Seq<u8>, b: Seq<u8>)
    requires
        a.len() == b.len(),
        forall|p: int|
            0 <= p < a.len() && (p < 65536 || p >= a.len() - 65536) ==> #[trigger] a[p] == b[p],
    ensures
        sampled_bytes(a) == sampled_bytes(b),
{
    assert(sampled_bytes(a) =~= sampled_bytes(b));
}

/// Law: a sample begins and ends as its source does, for up to 65536 bytes each
/// way; it is the whole source where the two ends meet, and the two ends alone
/// where they do not.
pub proof fn law_sample_is_both_ends(bytes: Seq<u8>)
    ensures
        bytes.len() <= 131072 ==> sampled_bytes(bytes) == bytes,
        bytes.len() > 131072 ==> sampled_bytes(bytes).len() == 131072,
        bytes.len() > 131072 ==> sampled_bytes(bytes).subrange(0, 65536) == bytes.subrange(
            0,
            65536,
        ),
        bytes.len() > 131072 ==> sampled_bytes(bytes).subrange(65536, 131072) == bytes.subrange(
            bytes.len() - 65536,
            bytes.len() as int,
        ),
{
    if bytes.len() > 131072 {
        assert(sampled_bytes(bytes).subrange(0, 65536) =~= bytes.subrange(0, 65536));
        assert(sampled_bytes(bytes).subrange(65536, 131072) =~= bytes.subrange(
            bytes.len() - 65536,
            bytes.len() as int,
        ));
    }
}

/// Multiplying by the FNV prime loses nothing: the prime is odd, so it has an
/// inverse modulo 2 to the 64.
proof fn lemma_prime_keeps_apart(x: u64, y: u64)
    requires
        x.wrapping_mul(FNV1A64_PRIME) == y.wrapping_mul(FNV1A64_PRIME),
    ensures
        x == y,
{
    let m: int = 0x1_0000_0000_0000_0000;
    let p: int = 0x100_0000_01b3;
    let inverse: int = 0xce96_5057_aff6_957b;
    let excess: int = 887285111055;
    let a = x as int;
    let b = y as int;
    assert(p * inverse == 1 + m * excess) by (nonlinear_arith)
        requires
            m == 0x1_0000_0000_0000_0000,
            p == 0x100_0000_01b3,
            inverse == 0xce96_5057_aff6_957b,
            excess == 887285111055,
    ;
    lemma_fundamental_div_mod(a * p, m);
    lemma_fundamental_div_mod(b * p, m);
    let q = (a * p) / m - (b * p) / m;
    assert((a - b) * p == m * q) by (nonlinear_arith)
        requires
            a * p == m * ((a * p) / m) + (a * p) % m,
            b * p == m * ((b * p) / m) + (b * p) % m,
            (a * p) % m == (b * p) % m,
            q == (a * p) / m - (b * p) / m,
    ;
    let t = q * inverse - excess * (a - b);
    assert(a - b == m * t) by (nonlinear_arith)
        requires
            (a - b) * p == m * q,
            p * inverse == 1 + m * excess,
            t == q * inverse - excess * (a - b),
    ;
    assert(t == 0) by (nonlinear_arith)
        requires
            a - b == m * t,
            -m < a - b < m,
            m > 0,
    ;
}

/// Hashing on from different values, or with a different byte, gives different
/// values.
proof fn lemma_hash_keeps_apart(x: u64, y: u64, a: u8, b: u8)
    requires
        x != y && a == b || x == y && a != b,
    ensures
        (x ^ a as u64).wrapping_mul(FNV1A64_PRIME) != (y ^ b as u64).wrapping_mul(FNV1A64_PRIME),
{
    assert((x ^ a as u64) != (y ^ b as u64)) by (bit_vector)
        requires
            x != y && a == b || x == y && a != b,
    ;
    if (x ^ a as u64).wrapping_mul(FNV1A64_PRIME) == (y ^ b as u64).wrapping_mul(FNV1A64_PRIME) {
        lemma_prime_keeps_apart(x ^ a as u64, y ^ b as u64);
    }
}

/// Law: the hash sees every byte. Two byte strings that differ in exactly one
/// place have different hashes.
pub proof fn law_hash_sees_every_byte(hash: u64, bytes: Seq<u8>, p: int, byte: u8)
    requires
        0 <= p < bytes.len(),
        byte != bytes[p],
    ensures
        fnv1a64(hash, bytes) != fnv1a64(hash, bytes.update(p, byte)),
    decreases bytes.len(),
{
    let other = bytes.update(p, byte);
    let front = bytes.drop_last();
    if p < bytes.len() - 1 {
        law_hash_sees_every_byte(hash, front, p, byte);
        assert(other.drop_last() =~= front.update(p, byte));
    } else {
        assert(other.drop_last() =~= front);
    }
    lemma_hash_keeps_apart(
        fnv1a64(hash, front),
        fnv1a64(hash, other.drop_last()),
        bytes.last(),
        other.last(),
    );
}

/// Dividing by sixteen once more is dividing by the next power.
proof fn lemma_next_digit(v: int, i: int)
    requires
        0 <= v,
        0 <= i,
    ensures
        v / pow(16, i as nat) == 16 * (v / pow(16, (i + 1) as nat)) + (v / pow(16, i as nat)) % 16,
{
    lemma_pow1(16);
    lemma_pow_adds(16, i as nat, 1);
    lemma_pow_positive(16, i as nat);
    lemma_div_denominator(v, pow(16, i as nat), 16);
    lemma_fundamental_div_mod(v / pow(16, i as nat), 16);
}

proof fn lemma_same_digits(v: u64, w: u64, i: int)
    requires
        hex16(v) == hex16(w),
        0 <= i <= 16,
    ensures
        v as int / pow(16, i as nat) == w as int / pow(16, i as nat),
    decreases 16 - i,
{
    if i == 16 {
        assert(pow(16, 16) == 0x1_0000_0000_0000_0000) by {
            reveal_with_fuel(pow, 17);
        }
        lemma_basic_div(v as int, pow(16, 16));
        lemma_basic_div(w as int, pow(16, 16));
    } else {
        lemma_same_digits(v, w, i + 1);
        lemma_next_digit(v as int, i);
        lemma_next_digit(w as int, i);
        let at = 15 - i;
        assert(15 - at == i);
        assert(hex16(v)[at] == hex_char(nibble_of(v, 15 - at)));
        assert(hex16(w)[at] == hex_char(nibble_of(w, 15 - at)));
    }
}

/// Different hashes are written differently.
proof fn lemma_fingerprints_differ(size: u64, a: Seq<u8>, other: u64, b: Seq<u8>)
    requires
        fnv1a64(FNV1A64_OFFSET_BASIS, le_bytes(size) + a) != fnv1a64(
            FNV1A64_OFFSET_BASIS,
            le_bytes(other) + b,
        ),
    ensures
        fingerprint_text(size, a) != fingerprint_text(other, b),
{
    let v = fnv1a64(FNV1A64_OFFSET_BASIS, le_bytes(size) + a);
    let w = fnv1a64(FNV1A64_OFFSET_BASIS, le_bytes(other) + b);
    let x = fingerprint_text(size, a);
    let y = fingerprint_text(other, b);
    if x == y {
        let front = "fnv1a64:0x"@.len() as int;
        assert(x.skip(front) =~= hex16(v));
        assert(y.skip(front) =~= hex16(w));
        lemma_same_digits(v, w, 0);
        lemma_pow0(16);
        lemma_div_basics(v as int);
        lemma_div_basics(w as int);
    }
}

/// Law: a fingerprint sees every edit at the ends. Changing one byte among the
/// first 65536 of a source, or among the last 65536, changes the fingerprint.
pub proof fn law_fingerprint_sees_an_edit(bytes: Seq<u8>, p: int, byte: u8)
    requires
        0 <= p < bytes.len(),
        p < 65536 || p >= bytes.len() - 65536,
        byte != bytes[p],
    ensures
        fingerprint_text(bytes.len() as u64, sampled_bytes(bytes)) != fingerprint_text(
            bytes.len() as u64,
            sampled_bytes(bytes.update(p, byte)),
        ),
{
    let len = bytes.len() as int;
    let size = bytes.len() as u64;
    let other = bytes.update(p, byte);
    let q = if len <= 131072 || p < 65536 {
        p
    } else {
        p - (len - 131072)
    };
    assert(sampled_bytes(other) =~= sampled_bytes(bytes).update(q, byte));
    let whole = le_bytes(size) + sampled_bytes(bytes);
    assert(whole.update(8 + q, byte) =~= le_bytes(size) + sampled_bytes(other));
    assert(whole[8 + q] == bytes[p]);
    law_hash_sees_every_byte(FNV1A64_OFFSET_BASIS, whole, 8 + q, byte);
    lemma_fingerprints_differ(size, sampled_bytes(bytes), size, sampled_bytes(other));
}

/// Law: a fingerprint sees the size. With the same sampled bytes, two sizes that
/// differ in exactly one of their eight bytes have different fingerprints.
pub proof fn law_fingerprint_sees_the_size(a: u64, b: u64, sampled: Seq<u8>, i: int)
    requires
        0 <= i < 8,
        forall|j: int|
            0 <= j < 8 ==> (j != i <==> #[trigger] ((a as int / pow(256, j as nat)) % 256) == (
            b as int / pow(256, j as nat)) % 256),
    ensures
        fingerprint_text(a, sampled) != fingerprint_text(b, sampled),
{
    let x = le_bytes(a) + sampled;
    let y = le_bytes(b) + sampled;
    assert forall|j: int| 0 <= j < 8 implies (j != i <==> #[trigger] x[j] == y[j]) by {
        assert(x[j] == byte_of(a, j));
        assert(y[j] == byte_of(b, j));
        assert((a as int / pow(256, j as nat)) % 256 == byte_of(a, j));
    }
    assert(y =~= x.update(i, y[i]));
    law_hash_sees_every_byte(FNV1A64_OFFSET_BASIS, x, i, y[i]);
    lemma_fingerprints_differ(a, sampled, b, sampled);
}

/// One step of the 64-bit FNV-1a hash: mix a byte in, then multiply by the prime
/// modulo 2 to the 64.
pub open spec fn mixed(hash: u64, byte: u8) -> u64 {
    ((hash ^ byte as u64) as int * 1099511628211 % 18446744073709551616) as u64
}

proof fn lemma_hash_folds(hash: u64, bytes: Seq<u8>)
    ensures
        fnv1a64(hash, bytes) == bytes.fold_left(hash, |h: u64, b: u8| mixed(h, b)),
    decreases bytes.len(),
{
    if bytes.len() > 0 {
        lemma_hash_folds(hash, bytes.drop_last());
    }
}

/// Law: a fingerprint is the 64-bit FNV-1a hash of the size, as eight bytes with
/// the least significant first, and of the sampled bytes, written with sixteen
/// hexadecimal digits after the name of the hash.
pub proof fn law_fingerprint_is_fnv1a(size: u64, sampled: Seq<u8>)
    ensures
        ({
            let whole = Seq::new(
                8,
                |i: int| ((size as int / pow(256, i as nat)) % 256) as u8,
            ) + sampled;
            let hash = whole.fold_left(
                14695981039346656037u64,
                |h: u64, b: u8| mixed(h, b),
            ) as int;
            let text = fingerprint_text(size, sampled);
            &&& text.len() == 26
            &&& text.take(10) == "fnv1a64:0x"@
            &&& forall|i: int|
                0 <= i < 16 ==> #[trigger] text[10 + i] == "0123456789abcdef"@[(hash / pow(
                    16,
                    (15 - i) as nat,
                )) % 16]
        }),
{
    let whole = Seq::new(8, |i: int| ((size as int / pow(256, i as nat)) % 256) as u8) + sampled;
    assert(whole =~= le_bytes(size) + sampled);
    lemma_hash_folds(14695981039346656037u64, whole);
    let value = fnv1a64(FNV1A64_OFFSET_BASIS, whole);
    let text = fingerprint_text(size, sampled);
    reveal_strlit("fnv1a64:0x");
    reveal_strlit("0123456789abcdef");
    assert(text.take(10) =~= "fnv1a64:0x"@);
    assert forall|i: int| 0 <= i < 16 implies #[trigger] text[10 + i] == "0123456789abcdef"@[(
    value as int / pow(16, (15 - i) as nat)) % 16] by {
        let digit = nibble_of(value, 15 - i);
        assert(text[10 + i] == hex16(value)[i]);
        assert(0 <= digit < 16);
    }
}

} // verus!
