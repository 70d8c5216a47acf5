//! Ordering of IEEE-754 binary64 values held as their 64-bit patterns.
//!
//! Confidence and conservation values are carried through the library as the
//! bit pattern of an `f64` (what `f64::to_bits` gives). The library only ever
//! compares such values; this module states and implements the IEEE-754
//! `<` relation on bit patterns: bit 63 is the sign, the low 63 bits are the
//! magnitude (ordered like the absolute value for every non-NaN value), a
//! pattern whose magnitude exceeds that of infinity is a NaN, and the two
//! zeros compare equal.
use vstd::prelude::*;

verus! {

/// The sign bit.
pub open spec fn sign_bit() -> nat {
    0x8000_0000_0000_0000
}

/// The magnitude of positive infinity; larger magnitudes are NaNs.
pub open spec fn infinity_magnitude() -> nat {
    0x7FF0_0000_0000_0000
}

/// The pattern of a negative value (sign bit set).
pub open spec fn is_negative_bits(b: u64) -> bool {
    b >= sign_bit()
}

/// The low 63 bits: exponent and mantissa.
pub open spec fn magnitude(b: u64) -> nat {
    if is_negative_bits(b) { (b - sign_bit()) as nat } else { b as nat }
}

/// The pattern is a NaN.
pub open spec fn is_nan_bits(b: u64) -> bool {
    magnitude(b) > infinity_magnitude()
}

/// IEEE-754 `a < b` for the values with bit patterns `a` and `b`:
/// false whenever either is a NaN, and false between the two zeros.
pub open spec fn f64_lt(a: u64, b: u64) -> bool {
    &&& !is_nan_bits(a)
    &&& !is_nan_bits(b)
    &&& if !is_negative_bits(a) && !is_negative_bits(b) {
        magnitude(a) < magnitude(b)
    } else if is_negative_bits(a) && is_negative_bits(b) {
        magnitude(a) > magnitude(b)
    } else if is_negative_bits(a) {
        !(magnitude(a) == 0 && magnitude(b) == 0)
    } else {
        false
    }
}

/// The bit pattern of `0.0`.
pub open spec fn zero_bits() -> u64 {
    0
}

/// The bit pattern of `0.7` (the nearest binary64 value).
pub open spec fn seven_tenths_bits() -> u64 {
    0x3FE6_6666_6666_6666
}

/// The pattern of `0.7`, the threshold above which a decision counts as good.
pub fn seven_tenths() -> (b: u64)
    ensures
        b == seven_tenths_bits(),
{
    0x3FE6_6666_6666_6666
}

/// IEEE-754 `a < b` on bit patterns.
pub fn lt_bits(a: u64, b: u64) -> (r: bool)
    ensures
        r == f64_lt(a, b),
{
    let sign: u64 = 0x8000_0000_0000_0000;
    let inf: u64 = 0x7FF0_0000_0000_0000;
    let a_neg = a >= sign;
    let b_neg = b >= sign;
    let a_mag = if a_neg { a - sign } else { a };
    let b_mag = if b_neg { b - sign } else { b };
    if a_mag > inf || b_mag > inf {
        false
    } else if !a_neg && !b_neg {
        a_mag < b_mag
    } else if a_neg && b_neg {
        a_mag > b_mag
    } else if a_neg {
        !(a_mag == 0 && b_mag == 0)
    } else {
        false
    }
}

/// Among non-NaN values, `<` is a strict weak order: if `a < c` then every
/// `b` lies above `a` or below `c`.
pub proof fn lemma_lt_negatively_transitive(a: u64, b: u64, c: u64)
    requires
        !is_nan_bits(a),
        !is_nan_bits(b),
        !is_nan_bits(c),
        f64_lt(a, c),
    ensures
        f64_lt(a, b) || f64_lt(b, c),
{
}

/// `<` is irreflexive and asymmetric.
pub proof fn lemma_lt_asymmetric(a: u64, b: u64)
    ensures
        !f64_lt(a, a),
        f64_lt(a, b) ==> !f64_lt(b, a),
{
}

} // verus!
