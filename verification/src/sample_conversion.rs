//! Sample conversion.
//!
//! Conversions between the standard fixed-point audio integer widths and the
//! normalized [`Sample`] value, together with their little-endian byte
//! layouts.
//!
//! Conversions to and from `u8` follow the definition that the value 128 is
//! the zero point: sample values on the range `[-1, 1]` are mapped to `u8`
//! values on the range `[0, 255]`. The signed widths use the full-scale
//! divisors `32767` (16-bit) and `8388607` (24-bit), so that an amplitude of
//! exactly `1.0` encodes to the largest representable word. Out-of-range
//! amplitudes saturate to the representable range; no conversion ever fails.

use vstd::prelude::*;
use crate::rounding::{
    lemma_rdiv_err, lemma_rdiv_exact, lemma_rdiv_mag, lemma_rdiv_unique, rdiv, rdiv_i128,
};
use crate::sample::Sample;
use vstd::arithmetic::mul::lemma_mul_is_commutative;

verus! {

/// `x` saturated to the range `[lo, hi]`.
pub open spec fn clip_to(x: int, lo: int, hi: int) -> int {
    if x < lo {
        lo
    } else if x > hi {
        hi
    } else {
        x
    }
}

/// The amplitude numerator decoded from an unsigned 8-bit word: `(v - 128) / 128`.
pub open spec fn u8_decoded(v: int) -> int {
    (v - 128) * 0x2_0000
}

/// The unsigned 8-bit word encoding amplitude numerator `n`:
/// `round(n / SAMPLE_SCALE * 128 + 128)`, saturated to `[0, 255]`.
pub open spec fn u8_encoded(n: int) -> int {
    clip_to(rdiv(n * 128 + 0x8000_0000, 0x100_0000), 0, 255)
}

/// The amplitude numerator decoded from a signed 16-bit word: `v / 32767`.
pub open spec fn i16_decoded(v: int) -> int {
    rdiv(v * 0x100_0000, 0x7FFF)
}

/// The signed 16-bit word encoding amplitude numerator `n`:
/// `round(n / SAMPLE_SCALE * 32767)`, saturated to `[-32768, 32767]`.
pub open spec fn i16_encoded(n: int) -> int {
    clip_to(rdiv(n * 0x7FFF, 0x100_0000), -0x8000, 0x7FFF)
}

/// The amplitude numerator decoded from a signed 24-bit word: `v / 8388607`.
pub open spec fn i24_decoded(v: int) -> int {
    rdiv(v * 0x100_0000, 0x7F_FFFF)
}

/// The signed 24-bit word encoding amplitude numerator `n`:
/// `round(n / SAMPLE_SCALE * 8388607)`, saturated to the 24-bit range.
pub open spec fn i24_encoded(n: int) -> int {
    clip_to(rdiv(n * 0x7F_FFFF, 0x100_0000), -0x80_0000, 0x7F_FFFF)
}

/// The signed value held by a little-endian 16-bit byte pair.
pub open spec fn le16_to_int(b0: int, b1: int) -> int {
    let u = b0 + 256 * b1;
    if u >= 0x8000 {
        u - 0x1_0000
    } else {
        u
    }
}

/// The signed value held by a little-endian 24-bit byte triple.
pub open spec fn le24_to_int(b0: int, b1: int, b2: int) -> int {
    let u = b0 + 256 * b1 + 0x1_0000 * b2;
    if u >= 0x80_0000 {
        u - 0x100_0000
    } else {
        u
    }
}

/// Converts a `u8` 8-bit sample to a `Sample`.
pub fn sample_from_u8(v: u8) -> (s: Sample)
    ensures
        s@ == u8_decoded(v as int),
{
    Sample::from_num((v as i64 - 128) * 0x2_0000)
}

/// Converts a raw byte to a `Sample`.
pub fn sample_from_u8_bytes(v: [u8; 1]) -> (s: Sample)
    ensures
        s@ == u8_decoded(v@[0] as int),
{
    sample_from_u8(v[0])
}

/// Converts a `Sample` to a `u8`, saturating outside `[0, 255]`.
pub fn sample_to_u8(s: Sample) -> (r: u8)
    ensures
        r == u8_encoded(s@),
{
    let q: i128 = rdiv_i128((s.num as i128) * 128 + 0x8000_0000, 0x100_0000);
    if q < 0 {
        0
    } else if q > 255 {
        255
    } else {
        q as u8
    }
}

/// Converts a `Sample` to a raw little-endian byte.
pub fn sample_to_u8_bytes(s: Sample) -> (r: [u8; 1])
    ensures
        r@[0] == u8_encoded(s@),
{
    [sample_to_u8(s)]
}

/// Converts an `i16` 16-bit sample to a `Sample`.
pub fn sample_from_i16(v: i16) -> (s: Sample)
    ensures
        s@ == i16_decoded(v as int),
{
    let q: i128 = rdiv_i128((v as i128) * 0x100_0000, 0x7FFF);
    proof {
        lemma_rdiv_mag(v as int * 0x100_0000, 0x7FFF, 0x400_0000);
    }
    Sample::from_num(q as i64)
}

/// Converts raw little-endian bytes to a `Sample`.
pub fn sample_from_i16_bytes(v: [u8; 2]) -> (s: Sample)
    ensures
        s@ == i16_decoded(le16_to_int(v@[0] as int, v@[1] as int)),
{
    let u: u32 = v[0] as u32 + 256 * (v[1] as u32);
    let x: i32 = if u >= 0x8000 {
        u as i32 - 0x1_0000
    } else {
        u as i32
    };
    sample_from_i16(x as i16)
}

/// Converts a `Sample` to an `i16`, saturating outside the 16-bit range.
pub fn sample_to_i16(s: Sample) -> (r: i16)
    ensures
        r == i16_encoded(s@),
{
    let q: i128 = rdiv_i128((s.num as i128) * 0x7FFF, 0x100_0000);
    if q < -0x8000 {
        -0x8000
    } else if q > 0x7FFF {
        0x7FFF
    } else {
        q as i16
    }
}

/// Converts a `Sample` to raw little-endian bytes.
pub fn sample_to_i16_bytes(s: Sample) -> (r: [u8; 2])
    ensures
        le16_to_int(r@[0] as int, r@[1] as int) == i16_encoded(s@),
{
    let x: i16 = sample_to_i16(s);
    let u: u16 = if x < 0 {
        (x as i32 + 0x1_0000) as u16
    } else {
        x as u16
    };
    [(u % 256) as u8, (u / 256) as u8]
}

/// Converts an `i32` holding a 24-bit sample to a `Sample`.
pub fn sample_from_i24(v: i32) -> (s: Sample)
    ensures
        s@ == i24_decoded(v as int),
{
    let q: i128 = rdiv_i128((v as i128) * 0x100_0000, 0x7F_FFFF);
    proof {
        lemma_rdiv_mag(v as int * 0x100_0000, 0x7F_FFFF, 0x4_0000_0000);
    }
    Sample::from_num(q as i64)
}

/// Converts raw little-endian bytes (sign-extended from 24 bits) to a `Sample`.
pub fn sample_from_i24_bytes(v: [u8; 3]) -> (s: Sample)
    ensures
        s@ == i24_decoded(le24_to_int(v@[0] as int, v@[1] as int, v@[2] as int)),
{
    let u: u32 = v[0] as u32 + 256 * (v[1] as u32) + 0x1_0000 * (v[2] as u32);
    let x: i32 = if u >= 0x80_0000 {
        u as i32 - 0x100_0000
    } else {
        u as i32
    };
    sample_from_i24(x)
}

/// Converts a `Sample` to an `i24` held in an `i32`, saturating outside the
/// 24-bit range.
pub fn sample_to_i24(s: Sample) -> (r: i32)
    ensures
        r == i24_encoded(s@),
{
    let q: i128 = rdiv_i128((s.num as i128) * 0x7F_FFFF, 0x100_0000);
    if q < -0x80_0000 {
        -0x80_0000
    } else if q > 0x7F_FFFF {
        0x7F_FFFF
    } else {
        q as i32
    }
}

/// Converts a `Sample` to raw little-endian bytes.
pub fn sample_to_i24_bytes(s: Sample) -> (r: [u8; 3])
    ensures
        le24_to_int(r@[0] as int, r@[1] as int, r@[2] as int) == i24_encoded(s@),
{
    let x: i32 = sample_to_i24(s);
    let u: u32 = if x < 0 {
        (x + 0x100_0000) as u32
    } else {
        x as u32
    };
    [(u % 256) as u8, ((u / 256) % 256) as u8, (u / 0x1_0000) as u8]
}

/// Every unsigned 8-bit word survives the round trip through the normalized
/// domain unchanged: `sample_to_u8(sample_from_u8(v)) == v`.
pub proof fn lemma_u8_round_trip(v: int)
    requires
        0 <= v <= 255,
    ensures
        u8_encoded(u8_decoded(v)) == v,
{
    assert(u8_decoded(v) * 128 + 128 * 0x100_0000 == v * 0x100_0000);
    lemma_rdiv_exact(v, 0x100_0000);
}

/// Every signed 16-bit word survives the round trip through the normalized
/// domain unchanged: `sample_to_i16(sample_from_i16(v)) == v`.
pub proof fn lemma_i16_round_trip(v: int)
    requires
        -0x8000 <= v <= 0x7FFF,
    ensures
        i16_encoded(i16_decoded(v)) == v,
{
    let w = rdiv(v * 0x100_0000, 0x7FFF);
    lemma_rdiv_err(v * 0x100_0000, 0x7FFF);
    lemma_mul_is_commutative(w, 0x7FFF);
    lemma_mul_is_commutative(0x100_0000, v);
    lemma_rdiv_unique(w * 0x7FFF, 0x100_0000, v);
}

/// Every signed 24-bit word survives the round trip through the normalized
/// domain unchanged: `sample_to_i24(sample_from_i24(v)) == v`.
pub proof fn lemma_i24_round_trip(v: int)
    requires
        -0x80_0000 <= v <= 0x7F_FFFF,
    ensures
        i24_encoded(i24_decoded(v)) == v,
{
    let w = rdiv(v * 0x100_0000, 0x7F_FFFF);
    lemma_rdiv_err(v * 0x100_0000, 0x7F_FFFF);
    lemma_mul_is_commutative(w, 0x7F_FFFF);
    lemma_mul_is_commutative(0x100_0000, v);
    lemma_rdiv_unique(w * 0x7F_FFFF, 0x100_0000, v);
}

} // verus!
