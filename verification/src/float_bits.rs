//! Comparisons of IEEE-754 binary32 values given by their bit patterns.
use vstd::prelude::*;

verus! {

/// Bit pattern of the sign bit.
pub const SIGN_BIT: u32 = 0x8000_0000;

/// Bit pattern of positive infinity; magnitudes above it are NaN.
pub const INFINITY_BITS: u32 = 0x7f80_0000;

/// Bit pattern of `1.0`.
pub const ONE_BITS: u32 = 0x3f80_0000;

/// The magnitude bits (all but the sign) of a binary32 value.
pub open spec fn magnitude(b: u32) -> int {
    b as int % 0x8000_0000
}

/// Whether the bit pattern encodes a NaN.
pub open spec fn is_nan(b: u32) -> bool {
    magnitude(b) > INFINITY_BITS
}

/// Whether the bit pattern encodes `0.0` or `-0.0`.
pub open spec fn is_zero(b: u32) -> bool {
    magnitude(b) == 0
}

/// The position of a non-NaN value on the number line: the magnitude,
/// negated when the sign bit is set. Both zeros map to 0, and for non-NaN
/// values `a < b` as floats exactly when `key(a) < key(b)`.
pub open spec fn key(b: u32) -> int {
    if b >= SIGN_BIT {
        -magnitude(b)
    } else {
        magnitude(b)
    }
}

/// `a < b` on binary32 values: false when either is NaN.
pub open spec fn lt(a: u32, b: u32) -> bool {
    !is_nan(a) && !is_nan(b) && key(a) < key(b)
}

/// Decides [`is_nan`].
pub fn nan(b: u32) -> (r: bool)
    ensures
        r == is_nan(b),
{
    b % SIGN_BIT > INFINITY_BITS
}

/// Decides [`is_zero`], that is `x == 0.0` for the value `x` that `b` encodes.
pub fn zero(b: u32) -> (r: bool)
    ensures
        r == is_zero(b),
{
    b % SIGN_BIT == 0
}

/// The exact [`key`] of a bit pattern.
pub fn order_key(b: u32) -> (k: i64)
    ensures
        k == key(b),
{
    if b >= SIGN_BIT {
        -((b - SIGN_BIT) as i64)
    } else {
        b as i64
    }
}

/// Decides [`lt`], that is `a < b` for the values the patterns encode.
pub fn less(a: u32, b: u32) -> (r: bool)
    ensures
        r == lt(a, b),
{
    !nan(a) && !nan(b) && order_key(a) < order_key(b)
}

/// `<` on binary32 values is a strict order: irreflexive, asymmetric and
/// transitive; NaN is unordered.
pub proof fn lemma_lt_strict_order(a: u32, b: u32, c: u32)
    ensures
        !lt(a, a),
        lt(a, b) ==> !lt(b, a),
        lt(a, b) && lt(b, c) ==> lt(a, c),
        is_nan(a) ==> !lt(a, b) && !lt(b, a),
{
}

/// Two values that are not NaN are either ordered one way or the other, or
/// equal as numbers; and they are equal as numbers only when they are the
/// same bit pattern or both zeros (`0.0 == -0.0`).
pub proof fn lemma_lt_total(a: u32, b: u32)
    requires
        !is_nan(a),
        !is_nan(b),
    ensures
        lt(a, b) || lt(b, a) || key(a) == key(b),
        key(a) == key(b) <==> (a == b || (is_zero(a) && is_zero(b))),
{
}

/// The order of binary32 values read off their bit patterns, for values
/// that are not NaN: two values with the sign bit clear are ordered as their
/// patterns are as unsigned integers; two with the sign bit set are ordered
/// the other way round; a value with the sign bit set lies before one with
/// it clear, except that `-0.0` and `0.0` are equal.
pub proof fn lemma_key_order(a: u32, b: u32)
    requires
        !is_nan(a),
        !is_nan(b),
    ensures
        a < 0x8000_0000 && b < 0x8000_0000 ==> (key(a) < key(b) <==> a < b),
        a >= 0x8000_0000 && b >= 0x8000_0000 ==> (key(a) < key(b) <==> b < a),
        a >= 0x8000_0000 && b < 0x8000_0000 ==> (key(a) < key(b) <==> !(a == 0x8000_0000
            && b == 0)),
        a >= 0x8000_0000 && b < 0x8000_0000 ==> key(b) <= key(a) ==> a == 0x8000_0000 && b == 0,
{
}

/// `a < b` on binary32 values, read off the bit patterns alone: NaN patterns
/// (exponent all ones, mantissa not zero) compare false; otherwise as in
/// [`lemma_key_order`].
pub proof fn lemma_lt_bits(a: u32, b: u32)
    ensures
        lt(a, b) <==> {
            let a_nan = (0x7f80_0000 < a && a < 0x8000_0000) || 0xff80_0000 < a;
            let b_nan = (0x7f80_0000 < b && b < 0x8000_0000) || 0xff80_0000 < b;
            &&& !a_nan
            &&& !b_nan
            &&& {
                ||| (a < 0x8000_0000 && b < 0x8000_0000 && a < b)
                ||| (a >= 0x8000_0000 && b >= 0x8000_0000 && b < a)
                ||| (a >= 0x8000_0000 && b < 0x8000_0000 && !(a == 0x8000_0000 && b == 0))
            }
        },
{
}

/// A pattern encodes `0.0` or `-0.0` exactly when it is `0x0000_0000` or
/// `0x8000_0000`; it encodes NaN exactly when its exponent bits are all ones
/// and its mantissa is not zero.
pub proof fn lemma_zero_nan_bits(b: u32)
    ensures
        is_zero(b) <==> (b == 0 || b == 0x8000_0000),
        is_nan(b) <==> ((0x7f80_0000 < b && b < 0x8000_0000) || 0xff80_0000 < b),
{
}

} // verus!
