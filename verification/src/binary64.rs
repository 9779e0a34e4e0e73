//! Order of IEEE 754 binary64 numbers, read off their bit patterns.
//!
//! Real-valued quantities reach this crate as the 64-bit patterns of binary64
//! numbers. All the crate ever does with them is compare them, and the order of
//! two such numbers can be told from their patterns alone: among numbers of
//! one sign the patterns, read as unsigned integers, are ordered as the
//! magnitudes are, and a set sign bit marks a number that is negative or zero.

use vstd::prelude::*;

verus! {

/// The sign bit of a pattern.
pub const SIGN_BIT: u64 = 0x8000_0000_0000_0000;

/// The pattern of positive infinity. Patterns of larger magnitude encode no number.
pub const INFINITY: u64 = 0x7FF0_0000_0000_0000;

/// The pattern with the sign bit cleared.
pub open spec fn magnitude(bits: u64) -> int {
    if bits >= SIGN_BIT { bits - SIGN_BIT } else { bits as int }
}

/// The pattern encodes no number.
pub open spec fn is_nan(bits: u64) -> bool {
    magnitude(bits) > INFINITY
}

/// An integer that orders the patterns of numbers as the numbers themselves are
/// ordered. Both zeros have rank zero.
pub open spec fn rank(bits: u64) -> int {
    if bits >= SIGN_BIT { -magnitude(bits) } else { magnitude(bits) }
}

/// `a <= b` as numbers. False when either encodes no number.
pub open spec fn le(a: u64, b: u64) -> bool {
    !is_nan(a) && !is_nan(b) && rank(a) <= rank(b)
}

/// `a < b` as numbers. False when either encodes no number.
pub open spec fn lt(a: u64, b: u64) -> bool {
    !is_nan(a) && !is_nan(b) && rank(a) < rank(b)
}

fn rank_of(bits: u64) -> (r: i128)
    ensures
        r == rank(bits),
{
    if bits >= SIGN_BIT {
        -((bits - SIGN_BIT) as i128)
    } else {
        bits as i128
    }
}

fn encodes_number(bits: u64) -> (ok: bool)
    ensures
        ok == !is_nan(bits),
{
    let mag: u64 = if bits >= SIGN_BIT { bits - SIGN_BIT } else { bits };
    mag <= INFINITY
}

/// Tells whether `a <= b` as numbers.
pub fn at_most(a: u64, b: u64) -> (r: bool)
    ensures
        r == le(a, b),
{
    encodes_number(a) && encodes_number(b) && rank_of(a) <= rank_of(b)
}

/// Tells whether `a < b` as numbers.
pub fn below(a: u64, b: u64) -> (r: bool)
    ensures
        r == lt(a, b),
{
    encodes_number(a) && encodes_number(b) && rank_of(a) < rank_of(b)
}

} // verus!
