//! Coordinates as single-precision bit patterns, read with integer
//! arithmetic only.
//!
//! A coordinate is the 32-bit IEEE 754 encoding of a binary floating-point
//! number: a sign bit, eight exponent bits and twenty-three fraction bits.
//! Every finite encoding is an integer multiple of 2^-149, so a finite
//! coordinate has an exact integer value once it is scaled by 2^149.
//! Sums, differences and the tolerance are built on that value.

use vstd::prelude::*;
use vstd::arithmetic::power2::{
    lemma2_to64,
    lemma2_to64_rest,
    lemma_pow2_adds,
    lemma_pow2_strictly_increases,
    lemma_pow2_unfold,
    pow2,
};

verus! {

/// A point, one bit pattern per axis.
#[derive(Clone, Copy, Debug, PartialEq, Eq, Structural)]
pub struct Position {
    pub x: u32,
    pub y: u32,
    pub z: u32,
}

/// The eight exponent bits.
pub open spec fn biased_exponent(bits: u32) -> int {
    bits as int / 0x80_0000 % 256
}

/// The twenty-three fraction bits.
pub open spec fn fraction(bits: u32) -> int {
    bits as int % 0x80_0000
}

/// Whether the sign bit is set.
pub open spec fn is_negative(bits: u32) -> bool {
    bits >= 0x8000_0000
}

/// Whether the pattern encodes a number, as opposed to an infinity or a
/// not-a-number.
pub open spec fn is_finite(bits: u32) -> bool {
    biased_exponent(bits) != 255
}

/// The integer significand: the fraction, with the implicit leading bit
/// for every pattern whose exponent bits are not all zero.
pub open spec fn significand(bits: u32) -> int {
    if biased_exponent(bits) == 0 {
        fraction(bits)
    } else {
        0x80_0000 + fraction(bits)
    }
}

/// The power of two by which the significand is multiplied, counted from
/// 2^-149.
pub open spec fn scale(bits: u32) -> nat {
    if biased_exponent(bits) == 0 {
        0
    } else {
        (biased_exponent(bits) - 1) as nat
    }
}

/// The absolute value of a finite pattern, in units of 2^-149.
pub open spec fn magnitude(bits: u32) -> int {
    significand(bits) * pow2(scale(bits))
}

/// The value of a finite pattern, in units of 2^-149.
pub open spec fn scaled_value(bits: u32) -> int {
    if is_negative(bits) {
        -magnitude(bits)
    } else {
        magnitude(bits)
    }
}

/// The fields of a pattern as shifts and masks give them, and the
/// pattern as the sum of its fields.
pub(crate) proof fn lemma_fields(bits: u32)
    ensures
        biased_exponent(bits) == ((bits >> 23) & 0xFF),
        fraction(bits) == (bits & 0x7F_FFFF),
        is_negative(bits) == ((bits >> 31) == 1),
        0 <= biased_exponent(bits) < 256,
        0 <= fraction(bits) < 0x80_0000,
        bits as int == (if is_negative(bits) {
            0x8000_0000int
        } else {
            0int
        }) + biased_exponent(bits) * 0x80_0000 + fraction(bits),
{
    assert(((bits >> 23) & 0xFF) == (bits / 0x80_0000) % 256) by (bit_vector);
    assert((bits & 0x7F_FFFF) == bits % 0x80_0000) by (bit_vector);
    assert(((bits >> 31) == 1) == (bits >= 0x8000_0000)) by (bit_vector);
    assert(bits >= 0x8000_0000 ==> bits == 0x8000_0000 + ((bits / 0x80_0000) % 256) * 0x80_0000
        + bits % 0x80_0000) by (bit_vector);
    assert(bits < 0x8000_0000 ==> bits == ((bits / 0x80_0000) % 256) * 0x80_0000 + bits
        % 0x80_0000) by (bit_vector);
}

/// Powers of two rise with their exponents.
pub(crate) proof fn lemma_pow2_monotone(e1: nat, e2: nat)
    requires
        e1 <= e2,
    ensures
        pow2(e1) <= pow2(e2),
{
    if e1 < e2 {
        lemma_pow2_strictly_increases(e1, e2);
    }
}

/// A product of numbers that are not negative is bounded by the product
/// of their bounds.
pub(crate) proof fn lemma_product_bound(x: int, xmax: int, y: int, ymax: int)
    requires
        0 <= x <= xmax,
        0 <= y <= ymax,
    ensures
        x * y <= xmax * ymax,
        0 <= x * y,
{
    assert(x * y <= xmax * ymax && 0 <= x * y) by (nonlinear_arith)
        requires
            0 <= x <= xmax,
            0 <= y <= ymax,
    ;
}

/// Two to the power `n`.
pub(crate) fn pow2_of(n: u32) -> (p: u128)
    requires
        n <= 120,
    ensures
        p == pow2(n as nat),
{
    proof {
        lemma2_to64();
        lemma2_to64_rest();
        lemma_pow2_adds(60, 60);
    }
    let mut p: u128 = 1;
    let mut i: u32 = 0;
    while i < n
        invariant
            i <= n <= 120,
            p == pow2(i as nat),
            pow2(120) == 0x1000_0000_0000_0000 * 0x1000_0000_0000_0000,
        decreases n - i,
    {
        proof {
            lemma_pow2_unfold((i + 1) as nat);
            lemma_pow2_monotone((i + 1) as nat, 120);
        }
        p = p * 2;
        i = i + 1;
    }
    p
}

} // verus!
