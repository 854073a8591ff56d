//! Reading IEEE-754 binary64 values from their bit patterns.
//!
//! A binary64 value is carried as the `u64` that holds its sign bit, its
//! eleven exponent bits and its fifty-two fraction bits, in that order from
//! the top. Nothing here does arithmetic on such a value: the module only
//! classifies it and places it on the number line.

use vstd::prelude::*;

verus! {

/// The pattern of the sign bit alone; every pattern at or above it is negative.
pub const SIGN_BIT: u64 = 0x8000_0000_0000_0000;

/// The pattern of positive infinity: all exponent bits set, no fraction bit.
pub const INFINITY: u64 = 0x7FF0_0000_0000_0000;

/// The rank given to every pattern that is not a number: one above infinity.
pub const NAN_RANK: i64 = 0x7FF0_0000_0000_0001;

/// Whether the sign bit of `bits` is set.
pub open spec fn sign(bits: u64) -> bool {
    bits >= SIGN_BIT
}

/// The pattern `bits` with its sign bit cleared.
pub open spec fn magnitude(bits: u64) -> u64 {
    if bits >= SIGN_BIT {
        (bits - SIGN_BIT) as u64
    } else {
        bits
    }
}

/// Whether `bits` encodes no number: all exponent bits set and some fraction bit.
pub open spec fn is_nan(bits: u64) -> bool {
    magnitude(bits) > INFINITY
}

/// Whether `bits` encodes a number other than the two infinities.
pub open spec fn is_finite(bits: u64) -> bool {
    magnitude(bits) < INFINITY
}

/// Where `bits` stands on the number line.
///
/// Among patterns that encode numbers, a greater rank is a greater number
/// and an equal rank is an equal number: the magnitudes of binary64 values
/// are ordered as their patterns are, the two zeros share rank 0, and
/// negative values mirror the positive ones. Every pattern that encodes no
/// number has the one rank `NAN_RANK`, above positive infinity.
pub open spec fn rank(bits: u64) -> int {
    if is_nan(bits) {
        NAN_RANK as int
    } else if sign(bits) {
        -(magnitude(bits) as int)
    } else {
        magnitude(bits) as int
    }
}

/// Whether the value `bits` is strictly above the value `bound`.
pub open spec fn above(bits: u64, bound: u64) -> bool {
    rank(bits) > rank(bound)
}

/// Clears the sign bit.
pub fn magnitude_of(bits: u64) -> (m: u64)
    ensures
        m == magnitude(bits),
        m < SIGN_BIT,
{
    if bits >= SIGN_BIT {
        bits - SIGN_BIT
    } else {
        bits
    }
}

/// Tells a pattern that encodes no number from one that does.
pub fn nan(bits: u64) -> (b: bool)
    ensures
        b == is_nan(bits),
{
    magnitude_of(bits) > INFINITY
}

/// Tells a finite number from an infinity or a pattern that encodes no number.
pub fn finite(bits: u64) -> (b: bool)
    ensures
        b == is_finite(bits),
{
    magnitude_of(bits) < INFINITY
}

/// Computes the rank of a pattern.
pub fn rank_of(bits: u64) -> (r: i64)
    ensures
        r == rank(bits),
        -(INFINITY as int) <= r <= NAN_RANK,
{
    let m: u64 = magnitude_of(bits);
    if m > INFINITY {
        NAN_RANK
    } else if bits >= SIGN_BIT {
        -(m as i64)
    } else {
        m as i64
    }
}

/// Compares two values by rank: whether `bits` is strictly above `bound`.
pub fn exceeds(bits: u64, bound: u64) -> (b: bool)
    ensures
        b == above(bits, bound),
{
    rank_of(bits) > rank_of(bound)
}

} // verus!
