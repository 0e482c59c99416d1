//! Single-precision values carried as their bit patterns.
//!
//! Comparisons and orderings of floating-point values are decided by their bits
//! alone: a pattern below `0x8000_0000` is a value of positive sign that grows
//! with the pattern, one above is a value of negative sign that falls with it.
use vstd::prelude::*;

verus! {

/// Bits of negative infinity.
pub const NEGATIVE_INFINITY: u32 = 0xff80_0000;

/// Bits of positive infinity, the largest magnitude of a number.
pub const INFINITY: u32 = 0x7f80_0000;

/// The sign bit.
pub const SIGN: u32 = 0x8000_0000;

/// The bits without their sign.
pub open spec fn magnitude(bits: u32) -> u32 {
    if bits >= SIGN {
        (bits - SIGN) as u32
    } else {
        bits
    }
}

/// The bits hold no number.
pub open spec fn nan(bits: u32) -> bool {
    magnitude(bits) > INFINITY
}

/// Orders numbers as values: the two zeros are equal.
pub open spec fn value_key(bits: u32) -> int {
    if bits >= SIGN {
        -(magnitude(bits) as int)
    } else {
        bits as int
    }
}

/// Orders every pattern: negative before positive, zeros apart, NaN at the ends.
pub open spec fn total_key(bits: u32) -> int {
    if bits >= SIGN {
        -(magnitude(bits) as int) - 1
    } else {
        bits as int
    }
}

/// `a > b` of two values; false where either is no number.
pub open spec fn value_gt(a: u32, b: u32) -> bool {
    !nan(a) && !nan(b) && value_key(a) > value_key(b)
}

pub fn magnitude_of(bits: u32) -> (m: u32)
    ensures
        m == magnitude(bits),
        m == bits % 0x8000_0000,
{
    if bits >= SIGN {
        bits - SIGN
    } else {
        bits
    }
}

pub fn is_nan(bits: u32) -> (b: bool)
    ensures
        b == nan(bits),
        b == (0x7f80_0000 < bits < 0x8000_0000 || bits > 0xff80_0000),
{
    magnitude_of(bits) > INFINITY
}

pub fn is_greater(a: u32, b: u32) -> (r: bool)
    ensures
        r == value_gt(a, b),
        a <= 0x7f80_0000 && b <= 0x7f80_0000 ==> r == (a > b),
        0x8000_0000 <= a <= 0xff80_0000 && 0x8000_0000 <= b <= 0xff80_0000 ==> r == (a < b),
        a <= 0x7f80_0000 && 0x8000_0000 <= b <= 0xff80_0000 ==> r == (a != 0 || b != 0x8000_0000),
        0x8000_0000 <= a && b < 0x8000_0000 ==> !r,
        0x7f80_0000 < a < 0x8000_0000 || a > 0xff80_0000 ==> !r,
        0x7f80_0000 < b < 0x8000_0000 || b > 0xff80_0000 ==> !r,
{
    if is_nan(a) || is_nan(b) {
        return false;
    }
    let ma: i64 = magnitude_of(a) as i64;
    let mb: i64 = magnitude_of(b) as i64;
    let ka: i64 = if a >= SIGN {
        -ma
    } else {
        ma
    };
    let kb: i64 = if b >= SIGN {
        -mb
    } else {
        mb
    };
    ka > kb
}

/// The key of the total order.
pub fn order_key(bits: u32) -> (k: i64)
    ensures
        k == total_key(bits),
        bits < 0x8000_0000 ==> k == bits,
        bits >= 0x8000_0000 ==> k == 0x7fff_ffff - bits,
{
    let m: i64 = magnitude_of(bits) as i64;
    if bits >= SIGN {
        -m - 1
    } else {
        m
    }
}

/// A pattern is no number exactly where, its sign set aside, it lies above that of
/// infinity.
pub proof fn law_nan_is_above_infinity(bits: u32)
    ensures
        nan(bits) <==> bits % 0x8000_0000 > 0x7f80_0000,
        nan(bits) <==> 0x7f80_0000 < bits < 0x8000_0000 || bits > 0xff80_0000,
        magnitude(bits) == bits % 0x8000_0000,
{
}

/// Which of two numbers is the greater can be read off their patterns: of two
/// positive ones the greater pattern, of two negative ones the smaller, of two signs
/// the positive one unless both are zero. What is no number is neither greater nor
/// less than anything.
pub proof fn law_greater_is_the_order_of_patterns(a: u32, b: u32)
    ensures
        a <= 0x7f80_0000 && b <= 0x7f80_0000 ==> (value_gt(a, b) <==> a > b),
        0x8000_0000 <= a <= 0xff80_0000 && 0x8000_0000 <= b <= 0xff80_0000 ==> (value_gt(a, b)
            <==> a < b),
        a <= 0x7f80_0000 && 0x8000_0000 <= b <= 0xff80_0000 ==> (value_gt(a, b) <==> a != 0 || b
            != 0x8000_0000),
        0x8000_0000 <= a && b < 0x8000_0000 ==> !value_gt(a, b),
        0x7f80_0000 < a < 0x8000_0000 || a > 0xff80_0000 ==> !value_gt(a, b) && !value_gt(b, a),
{
}

/// Of two numbers with different patterns, not both zero, one is the greater.
pub proof fn law_greater_is_total(a: u32, b: u32)
    requires
        a <= 0x7f80_0000 || 0x8000_0000 <= a <= 0xff80_0000,
        b <= 0x7f80_0000 || 0x8000_0000 <= b <= 0xff80_0000,
        a != b,
        a % 0x8000_0000 != 0 || b % 0x8000_0000 != 0,
    ensures
        value_gt(a, b) != value_gt(b, a),
{
}

/// The total order by patterns: positive ones rise, negative ones fall, and every
/// negative pattern comes before every positive one, the zeros included.
pub proof fn law_total_order_of_patterns(a: u32, b: u32)
    ensures
        a < 0x8000_0000 && b < 0x8000_0000 ==> (total_key(a) > total_key(b) <==> a > b),
        a >= 0x8000_0000 && b >= 0x8000_0000 ==> (total_key(a) > total_key(b) <==> a < b),
        a < 0x8000_0000 && b >= 0x8000_0000 ==> total_key(a) > total_key(b),
{
}

/// The total order tells any two patterns apart.
pub proof fn law_total_order_is_strict(a: u32, b: u32)
    ensures
        total_key(a) == total_key(b) <==> a == b,
{
}

/// Of two numbers the greater value comes later in the total order.
pub proof fn law_total_order_follows_values(a: u32, b: u32)
    ensures
        value_gt(a, b) ==> total_key(a) > total_key(b),
{
}

} // verus!
