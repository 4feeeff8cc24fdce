//! Sums and differences of coordinates, computed on their bit patterns.
//!
//! The sum of two finite coordinates is their exact sum, rounded to the
//! nearest single-precision number, a tie going to the number whose last
//! fraction bit is zero, and a sum too large for the format going to
//! infinity. Every result that is not a number is the one quiet pattern
//! `QUIET_NAN`, whatever the operands held.

use vstd::prelude::*;
use vstd::arithmetic::div_mod::{
    lemma_fundamental_div_mod,
    lemma_fundamental_div_mod_converse,
    lemma_mod_pos_bound,
};
use vstd::arithmetic::power2::{
    lemma2_to64,
    lemma2_to64_rest,
    lemma_pow2_adds,
    lemma_pow2_pos,
    lemma_pow2_unfold,
    pow2,
};
use crate::coord::{
    biased_exponent,
    fraction,
    is_finite,
    is_negative,
    lemma_fields,
    lemma_pow2_monotone,
    magnitude,
    pow2_of,
    scale,
    scaled_value,
    significand,
};

verus! {

/// The pattern that stands for every result that is not a number.
pub const QUIET_NAN: u32 = 0x7FC0_0000;

/// The pattern of positive infinity.
pub const INFINITY_BITS: u32 = 0x7F80_0000;

/// The sign bit.
pub const SIGN_BIT: u32 = 0x8000_0000;

/// Whether the pattern encodes no number at all.
pub open spec fn is_nan(bits: u32) -> bool {
    biased_exponent(bits) == 255 && fraction(bits) != 0
}

/// The pattern with its sign bit flipped.
pub open spec fn negated(bits: u32) -> u32 {
    if bits >= SIGN_BIT {
        (bits - SIGN_BIT) as u32
    } else {
        (bits + SIGN_BIT) as u32
    }
}

/// The number of binary digits of `n`.
pub open spec fn bit_length(n: nat) -> nat
    decreases n,
{
    if n == 0 {
        0
    } else {
        1 + bit_length(n / 2)
    }
}

/// `n / 2^k`, rounded to the nearest integer, a tie going to the even
/// one.
pub open spec fn round_half_even(n: nat, k: nat) -> nat {
    if k == 0 {
        n
    } else {
        let q = n / pow2(k);
        let r = n % pow2(k);
        let half = pow2((k - 1) as nat);
        if r > half || (r == half && q % 2 == 1) {
            q + 1
        } else {
            q
        }
    }
}

/// A pattern at or above that of infinity stands for infinity.
pub open spec fn saturated(pattern: int) -> int {
    if pattern >= INFINITY_BITS {
        INFINITY_BITS as int
    } else {
        pattern
    }
}

/// The pattern, without sign, of the single-precision number nearest to
/// `n * 2^-149`. Below 2^24 every `n` is a pattern of its own. Above, `n`
/// is cut to twenty-four digits, rounded half to even; the digits cut
/// off are counted in the exponent bits, into which a rounding up to
/// 2^24 carries by plain addition.
pub open spec fn rounded_magnitude(n: nat) -> int {
    if n < 0x100_0000 {
        n as int
    } else {
        let k = (bit_length(n) - 24) as nat;
        saturated((k * 0x80_0000 + round_half_even(n, k)) as int)
    }
}

/// The pattern of the single-precision number nearest to
/// `value * 2^-149`, for a value other than zero.
pub open spec fn rounded(value: int) -> u32 {
    if value >= 0 {
        rounded_magnitude(value as nat) as u32
    } else {
        (SIGN_BIT + rounded_magnitude((-value) as nat)) as u32
    }
}

/// The sum of two coordinates. A sum of zero is positive unless both
/// operands are negative.
pub open spec fn sum_bits(a: u32, b: u32) -> u32 {
    if is_nan(a) || is_nan(b) {
        QUIET_NAN
    } else if !is_finite(a) {
        if !is_finite(b) && is_negative(a) != is_negative(b) {
            QUIET_NAN
        } else {
            a
        }
    } else if !is_finite(b) {
        b
    } else {
        let s = scaled_value(a) + scaled_value(b);
        if s == 0 {
            if is_negative(a) && is_negative(b) {
                SIGN_BIT
            } else {
                0u32
            }
        } else {
            rounded(s)
        }
    }
}

/// The difference of two coordinates: the sum of the first and the
/// negated second.
pub open spec fn difference_bits(a: u32, b: u32) -> u32 {
    sum_bits(a, negated(b))
}

/// The pattern of the whole number `n`, for `n` below 2^24.
pub open spec fn whole_bits(n: nat) -> u32 {
    if n == 0 {
        0u32
    } else {
        rounded_magnitude(n * pow2(149)) as u32
    }
}

/// Flipping the sign bit leaves the other bits as they are, and turns the
/// value of a finite pattern into its opposite.
pub proof fn lemma_negated(bits: u32)
    ensures
        biased_exponent(negated(bits)) == biased_exponent(bits),
        fraction(negated(bits)) == fraction(bits),
        is_negative(negated(bits)) == !is_negative(bits),
        is_finite(negated(bits)) == is_finite(bits),
        is_nan(negated(bits)) == is_nan(bits),
        scaled_value(negated(bits)) == -scaled_value(bits),
        negated(negated(bits)) == bits,
{
    let flipped = negated(bits);
    assert(flipped == bits ^ 0x8000_0000) by (bit_vector)
        requires
            flipped == if bits >= 0x8000_0000u32 {
                (bits - 0x8000_0000u32) as u32
            } else {
                (bits + 0x8000_0000u32) as u32
            },
    ;
    lemma_fields(bits);
    lemma_fields(flipped);
    assert((((bits ^ 0x8000_0000) >> 23) & 0xFF) == ((bits >> 23) & 0xFF)) by (bit_vector);
    assert(((bits ^ 0x8000_0000) & 0x7F_FFFF) == (bits & 0x7F_FFFF)) by (bit_vector);
    assert((((bits ^ 0x8000_0000) >> 31) == 1) == !((bits >> 31) == 1)) by (bit_vector);
}

/// A number of `len` digits lies from 2^(len - 1) up to, not including,
/// 2^len.
proof fn lemma_bit_length_bounds(n: nat)
    requires
        n > 0,
    ensures
        bit_length(n) >= 1,
        pow2((bit_length(n) - 1) as nat) <= n < pow2(bit_length(n)),
    decreases n,
{
    lemma2_to64();
    if n == 1 {
        assert(bit_length(1) == 1 + bit_length(0));
    } else {
        let half = n / 2;
        lemma_bit_length_bounds(half);
        let len = bit_length(half);
        lemma_pow2_unfold(len);
        lemma_pow2_unfold(len + 1);
        assert(bit_length(n) == len + 1);
    }
}

/// A number from 2^(len - 1) up to, not including, 2^len has `len`
/// digits.
proof fn lemma_bit_length_unique(n: nat, len: nat)
    requires
        len >= 1,
        pow2((len - 1) as nat) <= n < pow2(len),
    ensures
        bit_length(n) == len,
{
    lemma_pow2_pos((len - 1) as nat);
    lemma_bit_length_bounds(n);
    let actual = bit_length(n);
    if actual < len {
        lemma_pow2_monotone(actual, (len - 1) as nat);
    } else if actual > len {
        lemma_pow2_monotone(len, (actual - 1) as nat);
    }
}

/// Rounding `n * 2^e` by the digits of `n` alone: with `len` the number
/// of digits of `n`, the product has `len + e` digits; where that is more
/// than twenty-four, `n` is cut, or filled up, to twenty-four digits.
pub open spec fn rounded_scaled(n: nat, e: nat) -> int {
    let len = bit_length(n);
    if len + e <= 24 {
        (n * pow2(e)) as int
    } else {
        let k = (len + e - 24) as nat;
        let m = if len <= 24 {
            n * pow2((24 - len) as nat)
        } else {
            round_half_even(n, (len - 24) as nat)
        };
        saturated((k * 0x80_0000 + m) as int)
    }
}

/// Dividing `n * 2^e` by `2^(s + e)` divides `n` by `2^s`; what is left
/// over is what `n` leaves over, times `2^e`.
proof fn lemma_scaled_division(n: nat, e: nat, s: nat)
    requires
        s >= 1,
    ensures
        (n * pow2(e)) / pow2(s + e) == n / pow2(s),
        (n * pow2(e)) % pow2(s + e) == (n % pow2(s)) * pow2(e),
{
    let c = pow2(e) as int;
    let d = pow2(s) as int;
    lemma_pow2_pos(e);
    lemma_pow2_pos(s);
    lemma_pow2_adds(s, e);
    let q = n as int / d;
    let r = n as int % d;
    lemma_fundamental_div_mod(n as int, d);
    lemma_mod_pos_bound(n as int, d);
    assert(n * c == q * (d * c) + r * c && 0 <= r * c < d * c) by (nonlinear_arith)
        requires
            n == d * q + r,
            0 <= r < d,
            c > 0,
    ;
    lemma_fundamental_div_mod_converse(n * c, d * c, q, r * c);
}

/// The rounded pattern of `n * 2^e` can be had from the digits of `n`
/// alone.
proof fn lemma_round_scaled(n: nat, e: nat)
    requires
        n > 0,
    ensures
        rounded_magnitude(n * pow2(e)) == rounded_scaled(n, e),
{
    lemma2_to64();
    let len = bit_length(n);
    let product = n * pow2(e);
    lemma_bit_length_bounds(n);
    lemma_pow2_pos(e);
    lemma_pow2_adds((len - 1) as nat, e);
    lemma_pow2_adds(len, e);
    assert(pow2((len - 1) as nat) * pow2(e) <= n * pow2(e) < pow2(len) * pow2(e))
        by (nonlinear_arith)
        requires
            pow2((len - 1) as nat) <= n < pow2(len),
            pow2(e) > 0,
    ;
    lemma_bit_length_unique(product, len + e);
    if len + e <= 24 {
        lemma_pow2_monotone(len + e, 24);
    } else {
        lemma_pow2_monotone(24, (len + e - 1) as nat);
        let k = (len + e - 24) as nat;
        if len <= 24 {
            // The product is a multiple of 2^k: nothing is cut off.
            let fill = (24 - len) as nat;
            lemma_pow2_adds(fill, k);
            lemma_pow2_pos(k);
            lemma_pow2_pos((k - 1) as nat);
            assert(product == (n * pow2(fill)) * pow2(k) + 0) by (nonlinear_arith)
                requires
                    product == n * pow2(e),
                    pow2(e) == pow2(fill) * pow2(k),
            ;
            lemma_fundamental_div_mod_converse(
                product as int,
                pow2(k) as int,
                (n * pow2(fill)) as int,
                0,
            );
        } else {
            let s = (len - 24) as nat;
            assert(k == s + e);
            lemma_scaled_division(n, e, s);
            lemma_pow2_adds((s - 1) as nat, e);
            assert(((k - 1) as nat) == (s - 1) as nat + e);
            let r = n % pow2(s);
            let half = pow2((s - 1) as nat);
            assert((r * pow2(e) > half * pow2(e)) == (r > half) && (r * pow2(e) == half * pow2(e))
                == (r == half)) by (nonlinear_arith)
                requires
                    pow2(e) > 0,
            ;
        }
    }
}

/// The pattern made of `k` in the exponent bits and of a significand
/// `m` of twenty-four digits, or of 2^24 carried into the exponent, is
/// finite, not negative, and has the value `m * 2^k`.
proof fn lemma_pattern_value(k: nat, m: nat)
    requires
        0x80_0000 <= m <= 0x100_0000,
        k * 0x80_0000 + m < INFINITY_BITS,
    ensures
        is_finite((k * 0x80_0000 + m) as u32),
        !is_negative((k * 0x80_0000 + m) as u32),
        magnitude((k * 0x80_0000 + m) as u32) == m * pow2(k),
{
    let pattern = (k * 0x80_0000 + m) as u32;
    lemma_fields(pattern);
    if m < 0x100_0000 {
        lemma_fundamental_div_mod_converse(
            pattern as int,
            0x80_0000,
            (k + 1) as int,
            m - 0x80_0000,
        );
        assert(biased_exponent(pattern) == k + 1);
        assert(significand(pattern) == m && scale(pattern) == k);
    } else {
        lemma_fundamental_div_mod_converse(pattern as int, 0x80_0000, (k + 2) as int, 0);
        assert(biased_exponent(pattern) == k + 2);
        assert(significand(pattern) == 0x80_0000 && scale(pattern) == k + 1);
        lemma_pow2_unfold(k + 1);
        assert(0x80_0000 * pow2(k + 1) == m * pow2(k)) by (nonlinear_arith)
            requires
                pow2(k + 1) == 2 * pow2(k),
                m == 0x100_0000,
        ;
    }
}

/// Rounding goes to a nearest number: a magnitude below 2^24 units is
/// kept as it is, and one of more digits moves by at most half of the
/// unit in which its twenty-four leading digits count, unless it is so
/// large that it goes to infinity.
pub proof fn lemma_rounded_is_nearest(n: nat)
    requires
        rounded_magnitude(n) < INFINITY_BITS,
    ensures
        is_finite(rounded_magnitude(n) as u32),
        !is_negative(rounded_magnitude(n) as u32),
        n < 0x100_0000 ==> magnitude(rounded_magnitude(n) as u32) == n,
        n >= 0x100_0000 ==> 2 * (magnitude(rounded_magnitude(n) as u32) - n) <= pow2(
            (bit_length(n) - 24) as nat,
        ) && 2 * (n - magnitude(rounded_magnitude(n) as u32)) <= pow2(
            (bit_length(n) - 24) as nat,
        ),
{
    lemma_pow2_100();
    lemma2_to64();
    let pattern = rounded_magnitude(n) as u32;
    if n < 0x100_0000 {
        lemma_fields(pattern);
        if n < 0x80_0000 {
            assert(biased_exponent(pattern) == 0 && fraction(pattern) == n);
        } else {
            lemma_fundamental_div_mod_converse(pattern as int, 0x80_0000, 1, n - 0x80_0000);
            assert(biased_exponent(pattern) == 1 && fraction(pattern) == n - 0x80_0000);
        }
        assert(significand(pattern) == n && scale(pattern) == 0);
        assert(magnitude(pattern) == n) by (nonlinear_arith)
            requires
                magnitude(pattern) == significand(pattern) * pow2(0),
                significand(pattern) == n,
                pow2(0) == 1,
        ;
    } else {
        lemma_bit_length_bounds(n);
        let len = bit_length(n);
        if len <= 24 {
            lemma_pow2_monotone(len, 24);
        }
        let k = (len - 24) as nat;
        let unit = pow2(k) as int;
        let half = pow2((k - 1) as nat) as int;
        let q = n as int / unit;
        let r = n as int % unit;
        lemma_pow2_pos(k);
        lemma_pow2_unfold(k);
        lemma_pow2_adds(23, k);
        lemma_pow2_adds(24, k);
        lemma_fundamental_div_mod(n as int, unit);
        lemma_mod_pos_bound(n as int, unit);
        assert(0x80_0000 <= q < 0x100_0000) by (nonlinear_arith)
            requires
                n == unit * q + r,
                0 <= r < unit,
                0x80_0000 * unit <= n < 0x100_0000 * unit,
        ;
        let m = round_half_even(n, k);
        lemma_pattern_value(k, m);
        assert(m * unit - n == (m - q) * unit - r) by (nonlinear_arith)
            requires
                n == unit * q + r,
        ;
        if m == q {
            assert((m - q) * unit == 0) by (nonlinear_arith)
                requires
                    m - q == 0,
            ;
        } else {
            assert((m - q) * unit == unit) by (nonlinear_arith)
                requires
                    m - q == 1,
            ;
        }
    }
}

/// The powers of two that the bounds of the routines are written with.
proof fn lemma_pow2_100()
    ensures
        pow2(100) == 0x10_0000_0000_0000_0000_0000_0000,
        pow2(24) == 0x100_0000,
        pow2(23) == 0x80_0000,
{
    lemma2_to64();
    lemma2_to64_rest();
    lemma_pow2_adds(50, 50);
}

/// A number below 2^limit has at most `limit` digits.
proof fn lemma_bit_length_limit(n: nat, limit: nat)
    requires
        n < pow2(limit),
    ensures
        bit_length(n) <= limit,
{
    if n > 0 {
        lemma_bit_length_bounds(n);
        if bit_length(n) > limit {
            lemma_pow2_monotone(limit, (bit_length(n) - 1) as nat);
        }
    }
}

/// The number of binary digits of `n`.
fn bit_len(n: u128) -> (len: u32)
    requires
        n < 0x10_0000_0000_0000_0000_0000_0000,
    ensures
        len == bit_length(n as nat),
        len <= 100,
{
    proof {
        lemma_pow2_100();
        lemma_bit_length_limit(n as nat, 100);
    }
    let mut len: u32 = 0;
    let mut rest: u128 = n;
    while rest > 0
        invariant
            bit_length(n as nat) == len + bit_length(rest as nat),
            bit_length(n as nat) <= 100,
        decreases rest,
    {
        rest = rest / 2;
        len = len + 1;
    }
    len
}

/// The pattern, without sign, of the number nearest to `n * 2^(e - 149)`.
fn round_scaled(n: u128, e: u32) -> (pattern: u32)
    requires
        0 < n < 0x10_0000_0000_0000_0000_0000_0000,
        e <= 253,
    ensures
        pattern == rounded_magnitude(n as nat * pow2(e as nat)),
        pattern <= INFINITY_BITS,
{
    proof {
        lemma_round_scaled(n as nat, e as nat);
        lemma_bit_length_bounds(n as nat);
        lemma_pow2_100();
    }
    let len = bit_len(n);
    if len + e <= 24 {
        let scaled = pow2_of(e);
        proof {
            lemma_pow2_adds(len as nat, e as nat);
            lemma_pow2_monotone((len + e) as nat, 24);
            lemma_pow2_pos(e as nat);
            assert(n * scaled < pow2(len as nat) * scaled) by (nonlinear_arith)
                requires
                    n < pow2(len as nat),
                    scaled > 0,
            ;
        }
        return (n * scaled) as u32;
    }
    let k: u32 = len + e - 24;
    let m: u128 = if len <= 24 {
        let fill = pow2_of(24 - len);
        proof {
            lemma_pow2_adds(len as nat, (24 - len) as nat);
            lemma_pow2_pos((24 - len) as nat);
            assert(n * fill < pow2(len as nat) * fill) by (nonlinear_arith)
                requires
                    n < pow2(len as nat),
                    fill > 0,
            ;
        }
        n * fill
    } else {
        let s: u32 = len - 24;
        let unit = pow2_of(s);
        let half = pow2_of(s - 1);
        proof {
            lemma_pow2_pos(s as nat);
        }
        let q = n / unit;
        let r = n % unit;
        proof {
            lemma_pow2_adds(24, s as nat);
            lemma_pow2_pos(s as nat);
            lemma_fundamental_div_mod(n as int, unit as int);
            lemma_mod_pos_bound(n as int, unit as int);
            assert(q < 0x100_0000) by (nonlinear_arith)
                requires
                    n == unit * q + r,
                    0 <= r,
                    n < 0x100_0000 * unit,
                    unit > 0,
            ;
        }
        if r > half || (r == half && q % 2 == 1) {
            q + 1
        } else {
            q
        }
    };
    assert(m <= 0x100_0000);
    let pattern: u64 = (k as u64) * 0x80_0000 + (m as u64);
    if pattern >= 0x7F80_0000 {
        0x7F80_0000
    } else {
        pattern as u32
    }
}

/// The pattern of the whole number `n * 256`, for a grid index `n`.
pub fn grid_offset(index: u8) -> (offset: u32)
    ensures
        offset == whole_bits(index as nat * 256),
        is_finite(offset),
        !is_negative(offset),
{
    if index == 0 {
        proof {
            lemma_fields(0);
        }
        return 0;
    }
    proof {
        assert(index as nat * 256 > 0 && index as nat * 256 < 0x1_0000);
    }
    let offset = round_scaled((index as u128) * 256, 149);
    proof {
        lemma_whole_finite(index as nat * 256);
    }
    offset
}

/// A whole number between 1 and 2^24 has a finite, positive pattern whose
/// value is the number itself.
pub proof fn lemma_whole_finite(n: nat)
    requires
        0 < n < 0x100_0000,
    ensures
        is_finite(whole_bits(n)),
        !is_negative(whole_bits(n)),
        scaled_value(whole_bits(n)) == n * pow2(149),
{
    lemma_pow2_100();
    lemma_round_scaled(n, 149);
    lemma_bit_length_bounds(n);
    let len = bit_length(n);
    lemma_bit_length_limit(n, 24);
    let k = (len + 149 - 24) as nat;
    let fill = (24 - len) as nat;
    let m = n * pow2(fill);
    lemma_pow2_adds((len - 1) as nat, fill);
    lemma_pow2_adds(len, fill);
    lemma_pow2_pos(fill);
    assert(pow2((len - 1) as nat) * pow2(fill) <= n * pow2(fill) < pow2(len) * pow2(fill))
        by (nonlinear_arith)
        requires
            pow2((len - 1) as nat) <= n < pow2(len),
            pow2(fill) > 0,
    ;
    assert(0x80_0000 <= m < 0x100_0000);
    let pattern = (k * 0x80_0000 + m) as u32;
    assert(k * 0x80_0000 + m < 0x7F80_0000);
    assert(whole_bits(n) == pattern);
    lemma_fields(pattern);
    assert(pattern as int / 0x80_0000 == k + 1 && pattern as int % 0x80_0000 == m - 0x80_0000)
        by {
        lemma_fundamental_div_mod_converse(
            pattern as int,
            0x80_0000,
            (k + 1) as int,
            m - 0x80_0000,
        );
    }
    assert(biased_exponent(pattern) == k + 1);
    assert(fraction(pattern) == m - 0x80_0000);
    assert(significand(pattern) == m);
    assert(scale(pattern) == k);
    lemma_pow2_adds(fill, k);
    assert(fill + k == 149);
    assert(m * pow2(k) == n * pow2(149)) by (nonlinear_arith)
        requires
            m == n * pow2(fill),
            pow2(149) == pow2(fill) * pow2(k),
    ;
}

/// Where the larger of two finite operands has a scale at least
/// twenty-six above the other's, the smaller one lies below half a unit
/// in the last place of the larger, and the sum is the larger operand.
proof fn lemma_far_sum(hi: u32, lo: u32)
    requires
        is_finite(hi),
        is_finite(lo),
        scale(hi) >= scale(lo) + 26,
    ensures
        sum_bits(hi, lo) == hi,
        sum_bits(lo, hi) == hi,
{
    lemma_fields(hi);
    lemma_fields(lo);
    lemma_pow2_100();
    lemma2_to64();
    let sig_hi = significand(hi);
    let sig_lo = significand(lo);
    let sc_hi = scale(hi);
    let sc_lo = scale(lo);
    let d = (sc_hi - sc_lo) as nat;
    let p = pow2(d) as int;
    let e = pow2(sc_lo) as int;
    let h = pow2((d - 1) as nat) as int;
    let h2 = pow2((d - 2) as nat) as int;
    lemma_pow2_adds(d, sc_lo);
    lemma_pow2_pos(sc_lo);
    lemma_pow2_unfold(d);
    lemma_pow2_unfold((d - 1) as nat);
    lemma_pow2_monotone(24, (d - 2) as nat);
    assert(p == 2 * h && h == 2 * h2 && h2 >= 0x100_0000);
    assert(0x80_0000 <= sig_hi < 0x100_0000);
    assert(0 <= sig_lo < 0x100_0000);
    assert(magnitude(hi) == sig_hi * (p * e));
    assert(magnitude(lo) == sig_lo * e);
    let pattern = biased_exponent(hi) * 0x80_0000 + fraction(hi);
    assert(pattern == sc_hi * 0x80_0000 + sig_hi);
    assert(pattern < INFINITY_BITS);
    let plus = is_negative(hi) == is_negative(lo) || sig_lo == 0;
    let n: int = if plus {
        sig_hi * p + sig_lo
    } else {
        sig_hi * p - sig_lo
    };
    assert(n > 0 && n >= 0x40_0000 * p) by (nonlinear_arith)
        requires
            n >= sig_hi * p - sig_lo,
            sig_hi >= 0x80_0000,
            sig_lo < 0x100_0000,
            p >= 0x400_0000,
    ;
    let s = scaled_value(hi) + scaled_value(lo);
    let hv = sig_hi * (p * e);
    let lv = sig_lo * e;
    assert((sig_hi * p + sig_lo) * e == hv + lv && (sig_hi * p - sig_lo) * e == hv - lv) by (nonlinear_arith)
        requires
            hv == sig_hi * (p * e),
            lv == sig_lo * e,
    ;
    assert(sig_lo == 0 ==> lv == 0);
    assert(s == if is_negative(hi) {
        -(n * e)
    } else {
        n * e
    });
    assert(n * e > 0) by (nonlinear_arith)
        requires
            n > 0,
            e > 0,
    ;
    lemma_round_scaled(n as nat, sc_lo);
    lemma_pow2_adds(23, d);
    lemma_pow2_adds(24, d);
    lemma_pow2_adds(23, (d - 1) as nat);
    lemma_pow2_adds(24, (d - 1) as nat);
    if plus || sig_hi > 0x80_0000 {
        let q: int = if plus {
            sig_hi
        } else {
            sig_hi - 1
        };
        let r: int = if plus {
            sig_lo
        } else {
            p - sig_lo
        };
        assert(n == q * p + r && 0x80_0000 * p <= n < 0x100_0000 * p) by (nonlinear_arith)
            requires
                n == if plus {
                    sig_hi * p + sig_lo
                } else {
                    sig_hi * p - sig_lo
                },
                q == if plus {
                    sig_hi
                } else {
                    sig_hi - 1
                },
                r == if plus {
                    sig_lo
                } else {
                    p - sig_lo
                },
                0x80_0000 <= q,
                sig_hi < 0x100_0000,
                0 <= sig_lo < 0x100_0000,
                !plus ==> sig_lo > 0,
                p >= 0x400_0000,
        ;
        lemma_bit_length_unique(n as nat, 24 + d);
        lemma_fundamental_div_mod_converse(n, p, q, r);
        assert(round_half_even(n as nat, d) == sig_hi);
        assert(rounded_scaled(n as nat, sc_lo) == pattern);
    } else {
        let q: int = 0xFF_FFFF;
        let r: int = h - sig_lo;
        assert(n == q * h + r && 0x80_0000 * h <= n < 0x100_0000 * h) by (nonlinear_arith)
            requires
                n == 0x80_0000 * p - sig_lo,
                p == 2 * h,
                q == 0xFF_FFFF,
                r == h - sig_lo,
                0 < sig_lo < 0x100_0000,
                h >= 0x200_0000,
        ;
        lemma_bit_length_unique(n as nat, 23 + d);
        lemma_fundamental_div_mod_converse(n, h, q, r);
        assert(round_half_even(n as nat, (d - 1) as nat) == 0x100_0000);
        assert(rounded_scaled(n as nat, sc_lo) == pattern);
    }
    assert(rounded_magnitude((n * e) as nat) == pattern);
}

/// The pattern with its sign bit flipped.
pub fn negate_bits(a: u32) -> (flipped: u32)
    ensures
        flipped == negated(a),
{
    assert((a ^ 0x8000_0000) == if a >= 0x8000_0000 {
        (a - 0x8000_0000) as u32
    } else {
        (a + 0x8000_0000) as u32
    }) by (bit_vector);
    a ^ 0x8000_0000
}

/// The sum of two coordinates.
pub fn add_bits(a: u32, b: u32) -> (sum: u32)
    ensures
        sum == sum_bits(a, b),
{
    proof {
        lemma_fields(a);
        lemma_fields(b);
        lemma_pow2_100();
    }
    let exp_a: u32 = (a >> 23) & 0xFF;
    let exp_b: u32 = (b >> 23) & 0xFF;
    let frac_a: u32 = a & 0x7F_FFFF;
    let frac_b: u32 = b & 0x7F_FFFF;
    let neg_a: bool = (a >> 31) == 1;
    let neg_b: bool = (b >> 31) == 1;
    if (exp_a == 255 && frac_a != 0) || (exp_b == 255 && frac_b != 0) {
        return QUIET_NAN;
    }
    if exp_a == 255 {
        if exp_b == 255 && neg_a != neg_b {
            return QUIET_NAN;
        }
        return a;
    }
    if exp_b == 255 {
        return b;
    }
    let sig_a: u128 = if exp_a == 0 {
        frac_a as u128
    } else {
        frac_a as u128 + 0x80_0000
    };
    let sig_b: u128 = if exp_b == 0 {
        frac_b as u128
    } else {
        frac_b as u128 + 0x80_0000
    };
    let sc_a: u32 = if exp_a == 0 {
        0
    } else {
        exp_a - 1
    };
    let sc_b: u32 = if exp_b == 0 {
        0
    } else {
        exp_b - 1
    };
    assert(sig_a == significand(a) && sc_a == scale(a));
    assert(sig_b == significand(b) && sc_b == scale(b));
    let first_high: bool = sc_a >= sc_b;
    let sig_hi: u128 = if first_high {
        sig_a
    } else {
        sig_b
    };
    let sig_lo: u128 = if first_high {
        sig_b
    } else {
        sig_a
    };
    let sc_hi: u32 = if first_high {
        sc_a
    } else {
        sc_b
    };
    let sc_lo: u32 = if first_high {
        sc_b
    } else {
        sc_a
    };
    let neg_hi: bool = if first_high {
        neg_a
    } else {
        neg_b
    };
    let neg_lo: bool = if first_high {
        neg_b
    } else {
        neg_a
    };
    let gap: u32 = sc_hi - sc_lo;
    if gap > 64 {
        proof {
            if first_high {
                lemma_far_sum(a, b);
            } else {
                lemma_far_sum(b, a);
            }
        }
        return if first_high {
            a
        } else {
            b
        };
    }
    let factor: u128 = pow2_of(gap);
    proof {
        lemma2_to64_rest();
        lemma_pow2_monotone(gap as nat, 64);
        lemma_pow2_adds(gap as nat, sc_lo as nat);
        lemma_pow2_pos(sc_lo as nat);
        crate::coord::lemma_product_bound(
            sig_hi as int,
            0xFF_FFFF,
            factor as int,
            0x1_0000_0000_0000_0000,
        );
    }
    let shifted: u128 = sig_hi * factor;
    let high: i128 = if neg_hi {
        -(shifted as i128)
    } else {
        shifted as i128
    };
    let low: i128 = if neg_lo {
        -(sig_lo as i128)
    } else {
        sig_lo as i128
    };
    let total: i128 = high + low;
    let ghost unit = pow2(sc_lo as nat) as int;
    proof {
        let value_hi = if first_high {
            scaled_value(a)
        } else {
            scaled_value(b)
        };
        let value_lo = if first_high {
            scaled_value(b)
        } else {
            scaled_value(a)
        };
        assert(value_hi == high * unit) by (nonlinear_arith)
            requires
                value_hi == if neg_hi {
                    -(sig_hi * (factor * unit))
                } else {
                    sig_hi * (factor * unit)
                },
                high == if neg_hi {
                    -(sig_hi * factor)
                } else {
                    sig_hi * factor
                },
        ;
        assert(value_lo == low * unit) by (nonlinear_arith)
            requires
                value_lo == if neg_lo {
                    -(sig_lo * unit)
                } else {
                    sig_lo * unit
                },
                low == if neg_lo {
                    -(sig_lo as int)
                } else {
                    sig_lo as int
                },
        ;
        assert(scaled_value(a) + scaled_value(b) == total * unit) by (nonlinear_arith)
            requires
                scaled_value(a) + scaled_value(b) == high * unit + low * unit,
                total == high + low,
        ;
        assert((total > 0 ==> total * unit > 0) && (total < 0 ==> total * unit < 0) && (total == 0
            ==> total * unit == 0)) by (nonlinear_arith)
            requires
                unit > 0,
        ;
        assert((-total) * unit == -(total * unit)) by (nonlinear_arith);
    }
    if total == 0 {
        if neg_a && neg_b {
            SIGN_BIT
        } else {
            0
        }
    } else if total > 0 {
        round_scaled(total as u128, sc_lo)
    } else {
        SIGN_BIT + round_scaled((-total) as u128, sc_lo)
    }
}

/// The difference of two coordinates.
pub fn subtract_bits(a: u32, b: u32) -> (difference: u32)
    ensures
        difference == difference_bits(a, b),
{
    add_bits(a, negate_bits(b))
}

} // verus!
