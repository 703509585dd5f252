//! Binary floating-point numbers held as their bit patterns.
//!
//! The crate never computes with machine floats. A number is the 64-bit
//! pattern of its double-precision form, and every rule on numbers (width
//! conversion, sign, finiteness) is a rule on those bits.

use vstd::prelude::*;

verus! {

/// Bit pattern of positive infinity; patterns above it, sign aside, are NaNs.
pub const INFINITY_BITS: u64 = 0x7ff0_0000_0000_0000;

/// The sign bit alone: the pattern of negative zero.
pub const SIGN_BIT: u64 = 0x8000_0000_0000_0000;

/// The pattern without its sign bit.
pub open spec fn magnitude(bits: u64) -> u64 {
    if bits < SIGN_BIT {
        bits
    } else {
        (bits - SIGN_BIT) as u64
    }
}

/// Neither an infinity nor a NaN.
pub open spec fn finite(bits: u64) -> bool {
    magnitude(bits) < INFINITY_BITS
}

/// Not a number.
pub open spec fn nan(bits: u64) -> bool {
    magnitude(bits) > INFINITY_BITS
}

/// The sign bit is set.
pub open spec fn negative(bits: u64) -> bool {
    bits >= SIGN_BIT
}

/// The single-precision pattern of the value of the half-precision `h`.
#[verifier::opaque]
pub open spec fn single_of_half(h: u16) -> u32 {
    let sign: u32 = ((h & 0x8000u16) as u32) << 16u32;
    let exponent: u32 = ((h >> 10u16) & 0x1fu16) as u32;
    let fraction: u32 = (h & 0x3ffu16) as u32;
    if exponent == 0x1f {
        sign | 0x7f80_0000u32 | (fraction << 13u32)
    } else if exponent != 0 {
        sign | (((exponent + 112) as u32) << 23u32) | (fraction << 13u32)
    } else if fraction == 0 {
        sign
    } else {
        let s1: u32 = if fraction < 8 { 8u32 } else { 0u32 };
        let f1: u32 = fraction << s1;
        let s2: u32 = if f1 < 128 { 4u32 } else { 0u32 };
        let f2: u32 = f1 << s2;
        let s3: u32 = if f2 < 512 { 2u32 } else { 0u32 };
        let f3: u32 = f2 << s3;
        let s4: u32 = if f3 < 1024 { 1u32 } else { 0u32 };
        let f4: u32 = f3 << s4;
        let shift: u32 = s1 | s2 | s3 | s4;
        sign | (((113 - shift) as u32) << 23u32) | ((f4 & 0x3ffu32) << 13u32)
    }
}

/// The double-precision pattern of the value of the single-precision `s`.
#[verifier::opaque]
pub open spec fn double_of_single(s: u32) -> u64 {
    let sign: u64 = ((s & 0x8000_0000u32) as u64) << 32u64;
    let exponent: u64 = ((s >> 23u32) & 0xffu32) as u64;
    let fraction: u64 = (s & 0x7f_ffffu32) as u64;
    if exponent == 0xff {
        sign | 0x7ff0_0000_0000_0000u64 | (fraction << 29u64)
    } else if exponent != 0 {
        sign | (((exponent + 896) as u64) << 52u64) | (fraction << 29u64)
    } else if fraction == 0 {
        sign
    } else {
        let s1: u64 = if fraction < 0x100 { 16u64 } else { 0u64 };
        let f1: u64 = fraction << s1;
        let s2: u64 = if f1 < 0x1_0000 { 8u64 } else { 0u64 };
        let f2: u64 = f1 << s2;
        let s3: u64 = if f2 < 0x10_0000 { 4u64 } else { 0u64 };
        let f3: u64 = f2 << s3;
        let s4: u64 = if f3 < 0x40_0000 { 2u64 } else { 0u64 };
        let f4: u64 = f3 << s4;
        let s5: u64 = if f4 < 0x80_0000 { 1u64 } else { 0u64 };
        let f5: u64 = f4 << s5;
        let shift: u64 = s1 | s2 | s3 | s4 | s5;
        sign | (((897 - shift) as u64) << 52u64) | ((f5 & 0x7f_ffffu64) << 29u64)
    }
}

/// The double-precision pattern of the value of the half-precision `h`.
pub open spec fn double_of_half(h: u16) -> u64 {
    double_of_single(single_of_half(h))
}

/// The only half-precision pattern that can widen to `s`.
#[verifier::opaque]
pub open spec fn half_candidate(s: u32) -> u16 {
    let sign: u16 = ((s >> 16u32) & 0x8000u32) as u16;
    let exponent: u32 = (s >> 23u32) & 0xffu32;
    let fraction: u32 = s & 0x7f_ffffu32;
    if exponent == 0xff {
        sign | 0x7c00u16 | ((fraction >> 13u32) as u16)
    } else if 113 <= exponent && exponent <= 142 {
        sign | ((((exponent - 112) as u32) << 10u32) as u16) | ((fraction >> 13u32) as u16)
    } else if 103 <= exponent && exponent <= 112 {
        sign | (((0x80_0000u32 | fraction) >> ((126 - exponent) as u32)) as u16)
    } else {
        sign
    }
}

/// The only single-precision pattern that can widen to `bits`.
#[verifier::opaque]
pub open spec fn single_candidate(bits: u64) -> u32 {
    let sign: u32 = ((bits >> 32u64) & 0x8000_0000u64) as u32;
    let exponent: u64 = (bits >> 52u64) & 0x7ffu64;
    let fraction: u64 = bits & 0xf_ffff_ffff_ffffu64;
    if exponent == 0x7ff {
        sign | 0x7f80_0000u32 | ((fraction >> 29u64) as u32)
    } else if 897 <= exponent && exponent <= 1150 {
        sign | ((((exponent - 896) as u64) << 23u64) as u32) | ((fraction >> 29u64) as u32)
    } else if 874 <= exponent && exponent <= 896 {
        sign | (((0x10_0000_0000_0000u64 | fraction) >> ((926 - exponent) as u64)) as u32)
    } else {
        sign
    }
}

/// The value of `bits` has a half-precision form.
pub open spec fn fits_half(bits: u64) -> bool {
    exists|h: u16| #[trigger] double_of_half(h) == bits
}

/// The value of `bits` has a single-precision form.
pub open spec fn fits_single(bits: u64) -> bool {
    exists|s: u32| #[trigger] double_of_single(s) == bits
}

/// Widening from half to single precision loses nothing.
pub proof fn lemma_half_candidate(h: u16)
    by (bit_vector)
    ensures
        half_candidate(single_of_half(h)) == h,
{
}

/// Widening from single to double precision loses nothing.
pub proof fn lemma_single_candidate(s: u32)
    by (bit_vector)
    ensures
        single_candidate(double_of_single(s)) == s,
{
}

/// A half-precision form also has a single-precision form, and both are
/// determined by the value.
pub proof fn lemma_narrowing_is_unique(h: u16, s: u32)
    ensures
        half_candidate(single_candidate(double_of_half(h))) == h,
        single_candidate(double_of_single(s)) == s,
        fits_single(double_of_half(h)),
{
    lemma_half_candidate(h);
    lemma_single_candidate(s);
    lemma_single_candidate(single_of_half(h));
    assert(double_of_single(single_of_half(h)) == double_of_half(h));
}

/// Executable [`single_of_half`].
pub fn widen_half(h: u16) -> (s: u32)
    ensures
        s == single_of_half(h),
{
    reveal(single_of_half);
    let sign: u32 = ((h & 0x8000u16) as u32) << 16u32;
    let exponent: u32 = ((h >> 10u16) & 0x1fu16) as u32;
    let fraction: u32 = (h & 0x3ffu16) as u32;
    assert(exponent <= 31 && fraction <= 0x3ff) by {
        assert((h >> 10u16) & 0x1fu16 <= 31u16 && h & 0x3ffu16 <= 0x3ffu16) by (bit_vector);
    }
    if exponent == 0x1f {
        sign | 0x7f80_0000u32 | (fraction << 13u32)
    } else if exponent != 0 {
        sign | ((exponent + 112) << 23u32) | (fraction << 13u32)
    } else if fraction == 0 {
        sign
    } else {
        let s1: u32 = if fraction < 8 { 8u32 } else { 0u32 };
        let f1: u32 = fraction << s1;
        let s2: u32 = if f1 < 128 { 4u32 } else { 0u32 };
        let f2: u32 = f1 << s2;
        let s3: u32 = if f2 < 512 { 2u32 } else { 0u32 };
        let f3: u32 = f2 << s3;
        let s4: u32 = if f3 < 1024 { 1u32 } else { 0u32 };
        let f4: u32 = f3 << s4;
        let shift: u32 = s1 | s2 | s3 | s4;
        assert(shift <= 15) by (bit_vector)
            requires
                shift == s1 | s2 | s3 | s4,
                s1 <= 8,
                s2 <= 4,
                s3 <= 2,
                s4 <= 1,
        ;
        sign | ((113 - shift) << 23u32) | ((f4 & 0x3ffu32) << 13u32)
    }
}

/// Executable [`double_of_single`].
pub fn widen_single(s: u32) -> (bits: u64)
    ensures
        bits == double_of_single(s),
{
    reveal(double_of_single);
    let sign: u64 = ((s & 0x8000_0000u32) as u64) << 32u64;
    let exponent: u64 = ((s >> 23u32) & 0xffu32) as u64;
    let fraction: u64 = (s & 0x7f_ffffu32) as u64;
    assert(exponent <= 255) by {
        assert((s >> 23u32) & 0xffu32 <= 255u32) by (bit_vector);
    }
    if exponent == 0xff {
        sign | 0x7ff0_0000_0000_0000u64 | (fraction << 29u64)
    } else if exponent != 0 {
        sign | ((exponent + 896) << 52u64) | (fraction << 29u64)
    } else if fraction == 0 {
        sign
    } else {
        let s1: u64 = if fraction < 0x100 { 16u64 } else { 0u64 };
        let f1: u64 = fraction << s1;
        let s2: u64 = if f1 < 0x1_0000 { 8u64 } else { 0u64 };
        let f2: u64 = f1 << s2;
        let s3: u64 = if f2 < 0x10_0000 { 4u64 } else { 0u64 };
        let f3: u64 = f2 << s3;
        let s4: u64 = if f3 < 0x40_0000 { 2u64 } else { 0u64 };
        let f4: u64 = f3 << s4;
        let s5: u64 = if f4 < 0x80_0000 { 1u64 } else { 0u64 };
        let f5: u64 = f4 << s5;
        let shift: u64 = s1 | s2 | s3 | s4 | s5;
        assert(shift <= 31) by (bit_vector)
            requires
                shift == s1 | s2 | s3 | s4 | s5,
                s1 <= 16,
                s2 <= 8,
                s3 <= 4,
                s4 <= 2,
                s5 <= 1,
        ;
        sign | ((897 - shift) << 52u64) | ((f5 & 0x7f_ffffu64) << 29u64)
    }
}

/// The half-precision form of `bits`, when there is one.
pub fn narrow_half(bits: u64) -> (half: Option<u16>)
    ensures
        match half {
            Some(h) => double_of_half(h) == bits,
            None => !fits_half(bits),
        },
{
    let s: u32 = candidate_single(bits);
    let h: u16 = candidate_half(s);
    proof {
        assert forall|other: u16| #[trigger] double_of_half(other) == bits implies other == h by {
            lemma_narrowing_is_unique(other, 0);
        }
    }
    if widen_single(widen_half(h)) == bits {
        Some(h)
    } else {
        None
    }
}

/// The single-precision form of `bits`, when there is one.
pub fn narrow_single(bits: u64) -> (single: Option<u32>)
    ensures
        match single {
            Some(s) => double_of_single(s) == bits,
            None => !fits_single(bits),
        },
{
    let s: u32 = candidate_single(bits);
    proof {
        assert forall|other: u32| #[trigger] double_of_single(other) == bits implies other == s by {
            lemma_single_candidate(other);
        }
    }
    if widen_single(s) == bits {
        Some(s)
    } else {
        None
    }
}

fn candidate_half(s: u32) -> (h: u16)
    ensures
        h == half_candidate(s),
{
    reveal(half_candidate);
    let sign: u16 = ((s >> 16u32) & 0x8000u32) as u16;
    let exponent: u32 = (s >> 23u32) & 0xffu32;
    let fraction: u32 = s & 0x7f_ffffu32;
    if exponent == 0xff {
        sign | 0x7c00u16 | ((fraction >> 13u32) as u16)
    } else if 113 <= exponent && exponent <= 142 {
        sign | (((exponent - 112) << 10u32) as u16) | ((fraction >> 13u32) as u16)
    } else if 103 <= exponent && exponent <= 112 {
        sign | (((0x80_0000u32 | fraction) >> (126 - exponent)) as u16)
    } else {
        sign
    }
}

fn candidate_single(bits: u64) -> (s: u32)
    ensures
        s == single_candidate(bits),
{
    reveal(single_candidate);
    let sign: u32 = ((bits >> 32u64) & 0x8000_0000u64) as u32;
    let exponent: u64 = (bits >> 52u64) & 0x7ffu64;
    let fraction: u64 = bits & 0xf_ffff_ffff_ffffu64;
    if exponent == 0x7ff {
        sign | 0x7f80_0000u32 | ((fraction >> 29u64) as u32)
    } else if 897 <= exponent && exponent <= 1150 {
        sign | (((exponent - 896) << 23u64) as u32) | ((fraction >> 29u64) as u32)
    } else if 874 <= exponent && exponent <= 896 {
        sign | (((0x10_0000_0000_0000u64 | fraction) >> (926 - exponent)) as u32)
    } else {
        sign
    }
}

/// Whether the value is neither an infinity nor a NaN.
pub fn is_finite(bits: u64) -> (yes: bool)
    ensures
        yes == finite(bits),
{
    if bits < SIGN_BIT {
        bits < INFINITY_BITS
    } else {
        bits - SIGN_BIT < INFINITY_BITS
    }
}

/// Whether the value is a NaN.
pub fn is_nan(bits: u64) -> (yes: bool)
    ensures
        yes == nan(bits),
{
    if bits < SIGN_BIT {
        bits > INFINITY_BITS
    } else {
        bits - SIGN_BIT > INFINITY_BITS
    }
}

/// Widening a single-precision number keeps its value. A normal one moves its
/// exponent and fraction to their new places and shifts the exponent by the
/// difference of the biases. A number below those has half the value of its
/// double: one less in the exponent. Zero, infinity and the sign stay what they
/// are.
pub proof fn law_widened_singles_keep_their_value(s: u32)
    by (bit_vector)
    ensures
        0x80_0000u32 <= s && s < 0x7f80_0000u32 ==> double_of_single(s) == s * 0x2000_0000
            + 0x3800_0000_0000_0000,
        0u32 < s && s < 0x80_0000u32 ==> double_of_single((s << 1u32)) == double_of_single(s)
            + 0x10_0000_0000_0000,
        double_of_single(0u32) == 0,
        double_of_single(0x7f80_0000u32) == 0x7ff0_0000_0000_0000,
        s < 0x8000_0000u32 ==> double_of_single((s | 0x8000_0000u32)) == double_of_single(s)
            + 0x8000_0000_0000_0000,
{
}

/// Widening a half-precision number keeps its value, as widening a
/// single-precision one does.
pub proof fn law_widened_halves_keep_their_value(h: u16)
    by (bit_vector)
    ensures
        0x400u16 <= h && h < 0x7c00u16 ==> single_of_half(h) == h * 0x2000 + 0x3800_0000,
        0u16 < h && h < 0x400u16 ==> single_of_half((h << 1u16)) == single_of_half(h) + 0x80_0000,
        single_of_half(0u16) == 0,
        single_of_half(0x7c00u16) == 0x7f80_0000,
        h < 0x8000u16 ==> single_of_half((h | 0x8000u16)) == single_of_half(h) + 0x8000_0000,
{
}

} // verus!
