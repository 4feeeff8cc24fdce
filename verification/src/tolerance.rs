//! Equality of coordinates within a small tolerance.
//!
//! Two coordinates are close when the magnitude of their difference, as
//! a single-precision number, is less than the single-precision number
//! nearest to one thousandth. The patterns of numbers that are not
//! negative are ordered as the numbers are, and the patterns of infinity
//! and of not-a-number lie above all of them; so the comparison is made
//! on patterns, and fails where the difference is not a finite number.

use vstd::prelude::*;
use crate::arith::{
    difference_bits,
    lemma_negated,
    negated,
    subtract_bits,
    SIGN_BIT,
};
use crate::coord::{is_finite, lemma_fields, Position};

verus! {

/// The pattern of the single-precision number nearest to one thousandth.
pub const EPSILON_BITS: u32 = 0x3A83_126F;

/// The pattern without its sign bit: that of the number's magnitude.
pub open spec fn magnitude_bits(bits: u32) -> u32 {
    if bits >= SIGN_BIT {
        (bits - SIGN_BIT) as u32
    } else {
        bits
    }
}

/// Two coordinates are close when the magnitude of their difference is
/// below the tolerance.
pub open spec fn close(a: u32, b: u32) -> bool {
    magnitude_bits(difference_bits(a, b)) < EPSILON_BITS
}

/// Two positions are equal within tolerance when they are close on every
/// axis.
pub open spec fn positions_close(a: Position, b: Position) -> bool {
    close(a.x, b.x) && close(a.y, b.y) && close(a.z, b.z)
}

/// Whether all three axes of a position are finite.
pub open spec fn position_finite(p: Position) -> bool {
    is_finite(p.x) && is_finite(p.y) && is_finite(p.z)
}

/// A finite coordinate is close to itself. One that is not finite is
/// not: its difference from itself is not a number.
pub proof fn lemma_close_reflexive(a: u32)
    ensures
        close(a, a) == is_finite(a),
{
    lemma_negated(a);
    lemma_fields(a);
    lemma_fields(negated(a));
}

/// Whether two coordinates are within tolerance of each other.
pub fn coords_close(a: u32, b: u32) -> (near: bool)
    ensures
        near == close(a, b),
{
    let difference = subtract_bits(a, b);
    assert((difference & 0x7FFF_FFFF) == if difference >= 0x8000_0000 {
        (difference - 0x8000_0000) as u32
    } else {
        difference
    }) by (bit_vector);
    (difference & 0x7FFF_FFFF) < EPSILON_BITS
}

/// Whether two positions agree within tolerance on all three axes.
pub fn positions_equal(a: Position, b: Position) -> (near: bool)
    ensures
        near == positions_close(a, b),
{
    coords_close(a.x, b.x) && coords_close(a.y, b.y) && coords_close(a.z, b.z)
}

} // verus!
