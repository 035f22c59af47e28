//! Real-valued quantities travel into the library as the bit patterns of
//! IEEE-754 single-precision numbers. For every such number that is not NaN,
//! the sign-magnitude reading of its bits orders it exactly as the number
//! itself (both zeros read as 0), so comparisons made here on ordinals are
//! the comparisons the host would make on the numbers.
use vstd::prelude::*;

verus! {

/// The sign bit of a single-precision pattern.
pub const SIGN_BIT: u32 = 0x8000_0000;

/// The pattern of positive infinity; larger magnitudes are NaN.
pub const INFINITY_BITS: u32 = 0x7f80_0000;

/// The pattern of positive zero.
pub const ZERO: u32 = 0;

/// The magnitude bits of a pattern (all but the sign).
pub open spec fn magnitude(bits: u32) -> int {
    if bits >= SIGN_BIT {
        bits - SIGN_BIT
    } else {
        bits as int
    }
}

/// The sign-magnitude integer of a pattern.
pub open spec fn ordinal_of(bits: u32) -> int {
    if bits >= SIGN_BIT {
        -magnitude(bits)
    } else {
        magnitude(bits)
    }
}

/// The pattern is a NaN, which has no place in the order.
pub open spec fn is_nan_bits(bits: u32) -> bool {
    magnitude(bits) > INFINITY_BITS
}

/// The ordinal of a single-precision pattern.
pub fn ordinal(bits: u32) -> (r: i64)
    ensures
        r == ordinal_of(bits),
        -0x8000_0000 < r < 0x8000_0000,
{
    if bits >= SIGN_BIT {
        -((bits - SIGN_BIT) as i64)
    } else {
        bits as i64
    }
}

/// Whether the pattern is a zero of either sign.
pub fn is_zero(bits: u32) -> (r: bool)
    ensures
        r == (magnitude(bits) == 0),
        r == (ordinal_of(bits) == 0),
{
    bits == 0 || bits == SIGN_BIT
}

/// `x < y` on the numbers the patterns encode: false when either is a NaN.
pub open spec fn f32_lt_spec(x: u32, y: u32) -> bool {
    !is_nan_bits(x) && !is_nan_bits(y) && ordinal_of(x) < ordinal_of(y)
}

/// `x <= y` on the numbers the patterns encode: false when either is a NaN.
pub open spec fn f32_le_spec(x: u32, y: u32) -> bool {
    !is_nan_bits(x) && !is_nan_bits(y) && ordinal_of(x) <= ordinal_of(y)
}

/// Compares two encoded numbers with `<`.
pub fn f32_lt(x: u32, y: u32) -> (r: bool)
    ensures
        r == f32_lt_spec(x, y),
{
    !is_nan(x) && !is_nan(y) && ordinal(x) < ordinal(y)
}

/// Compares two encoded numbers with `<=`.
pub fn f32_le(x: u32, y: u32) -> (r: bool)
    ensures
        r == f32_le_spec(x, y),
{
    !is_nan(x) && !is_nan(y) && ordinal(x) <= ordinal(y)
}

/// Whether the pattern is a NaN.
pub fn is_nan(bits: u32) -> (r: bool)
    ensures
        r == is_nan_bits(bits),
{
    if bits >= SIGN_BIT {
        bits - SIGN_BIT > INFINITY_BITS
    } else {
        bits > INFINITY_BITS
    }
}

} // verus!
