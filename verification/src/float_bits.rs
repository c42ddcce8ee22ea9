use vstd::prelude::*;

verus! {

// The library holds no floating-point values. A binary32 or binary64 number
// is carried by its IEEE 754 bit pattern (`f32::to_bits`, `f64::to_bits`), and
// the comparisons that the profile rules make are made on those patterns:
// for numbers that are not NaN, IEEE 754 orders them by sign and magnitude,
// and `-0.0` equals `+0.0`.

/// Whether a binary32 bit pattern is a NaN.
pub open spec fn f32_is_nan(bits: u32) -> bool {
    let magnitude = if bits >= 0x8000_0000 { bits - 0x8000_0000 } else { bits as int };
    magnitude > 0x7f80_0000
}

/// Where a binary32 number stands on the number line: two numbers that are
/// not NaN compare as their keys compare (both zeros have key 0).
pub open spec fn f32_key(bits: u32) -> int {
    if bits >= 0x8000_0000 {
        -(bits - 0x8000_0000)
    } else {
        bits as int
    }
}

/// Whether a binary64 bit pattern is a NaN.
pub open spec fn f64_is_nan(bits: u64) -> bool {
    let magnitude = if bits >= 0x8000_0000_0000_0000 {
        bits - 0x8000_0000_0000_0000
    } else {
        bits as int
    };
    magnitude > 0x7ff0_0000_0000_0000
}

/// Where a binary64 number stands on the number line, as `f32_key` for binary32.
pub open spec fn f64_key(bits: u64) -> int {
    if bits >= 0x8000_0000_0000_0000 {
        -(bits - 0x8000_0000_0000_0000)
    } else {
        bits as int
    }
}

/// `f32_is_nan`, computed.
pub fn f32_bits_is_nan(bits: u32) -> (r: bool)
    ensures
        r == f32_is_nan(bits),
{
    let magnitude = if bits >= 0x8000_0000 { bits - 0x8000_0000 } else { bits };
    magnitude > 0x7f80_0000
}

/// Whether the binary32 number `a` is at most `b`, for numbers that are not NaN.
pub fn f32_bits_le(a: u32, b: u32) -> (r: bool)
    ensures
        r == (f32_key(a) <= f32_key(b)),
{
    if a >= 0x8000_0000 {
        if b >= 0x8000_0000 {
            b <= a
        } else {
            true
        }
    } else {
        if b >= 0x8000_0000 {
            a == 0 && b == 0x8000_0000
        } else {
            a <= b
        }
    }
}

/// `f64_is_nan`, computed.
pub fn f64_bits_is_nan(bits: u64) -> (r: bool)
    ensures
        r == f64_is_nan(bits),
{
    let magnitude = if bits >= 0x8000_0000_0000_0000 {
        bits - 0x8000_0000_0000_0000
    } else {
        bits
    };
    magnitude > 0x7ff0_0000_0000_0000
}

/// Whether the binary64 number `a` is below `b`, for numbers that are not NaN.
pub fn f64_bits_lt(a: u64, b: u64) -> (r: bool)
    ensures
        r == (f64_key(a) < f64_key(b)),
{
    if a >= 0x8000_0000_0000_0000 {
        if b >= 0x8000_0000_0000_0000 {
            b < a
        } else {
            !(a == 0x8000_0000_0000_0000 && b == 0)
        }
    } else {
        if b >= 0x8000_0000_0000_0000 {
            false
        } else {
            a < b
        }
    }
}

} // verus!
