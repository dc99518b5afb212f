//! Scores as bit patterns, and the order among them.
//!
//! A score is an IEEE 754 single-precision number. It is carried as its 32 bits:
//! the sign in the top bit, the exponent and the fraction below it. Adding scores
//! is left to the caller; ordering them needs integers only, and is done here.

use vstd::prelude::*;

verus! {

/// The top bit of a score: set for a negative one.
pub const SIGN_BIT: u32 = 0x8000_0000;

/// The bits of positive infinity. Every magnitude above them is not a number.
pub const INFINITY_BITS: u32 = 0x7f80_0000;

/// A score without its sign.
pub open spec fn magnitude(bits: u32) -> int {
    if bits >= SIGN_BIT {
        bits - SIGN_BIT
    } else {
        bits as int
    }
}

/// The score is not a number, so it is neither below, above nor equal to any
/// score.
pub open spec fn is_nan(bits: u32) -> bool {
    magnitude(bits) > INFINITY_BITS
}

/// An integer that orders scores as their values do: of two scores that are
/// numbers, the one with the smaller rank is the smaller number, and equal ranks
/// are equal numbers. Both zeros have rank zero.
pub open spec fn rank(bits: u32) -> int {
    if bits >= SIGN_BIT {
        -magnitude(bits)
    } else {
        magnitude(bits)
    }
}

/// Whether a score is not a number.
pub fn score_is_nan(bits: u32) -> (b: bool)
    ensures
        b == is_nan(bits),
{
    if bits >= SIGN_BIT {
        bits - SIGN_BIT > INFINITY_BITS
    } else {
        bits > INFINITY_BITS
    }
}

/// The rank of a score.
pub fn score_rank(bits: u32) -> (r: i64)
    ensures
        r == rank(bits),
{
    if bits >= SIGN_BIT {
        let below: i64 = (bits - SIGN_BIT) as i64;
        -below
    } else {
        bits as i64
    }
}

/// Whether the first score is a smaller number than the second. A score that is
/// not a number is never smaller and never has a smaller one.
pub fn score_less(a: u32, b: u32) -> (less: bool)
    ensures
        less == (!is_nan(a) && !is_nan(b) && rank(a) < rank(b)),
{
    !score_is_nan(a) && !score_is_nan(b) && score_rank(a) < score_rank(b)
}

} // verus!
