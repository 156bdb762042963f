//! Numbers as IEEE-754 double-precision bit patterns.
//!
//! The interpreter never computes with floating point directly: a number is
//! carried as the 64 bits of its representation.  Sign, zeroness, NaN-ness,
//! negation, equality and ordering are all functions of those bits alone and
//! are defined and verified here.  Only the four arithmetic operations and
//! the conversions between numbers and text need a host (see [`crate::vm::Host`]).

use vstd::prelude::*;

verus! {

/// Mask of the sign bit of a double.
pub const SIGN_MASK: u64 = 0x8000_0000_0000_0000;

/// Mask of the exponent field of a double.
pub const EXP_MASK: u64 = 0x7ff0_0000_0000_0000;

/// Mask of the fraction field of a double.
pub const FRAC_MASK: u64 = 0x000f_ffff_ffff_ffff;

/// The bit pattern of 1.0.
pub const ONE_BITS: u64 = 0x3ff0_0000_0000_0000;

/// The bit pattern of +0.0.
pub const ZERO_BITS: u64 = 0;

/// A NaN: exponent all ones and a non-zero fraction.
pub open spec fn is_nan(b: u64) -> bool {
    b & EXP_MASK == EXP_MASK && b & FRAC_MASK != 0
}

/// Positive or negative zero.
pub open spec fn is_zero(b: u64) -> bool {
    b == ZERO_BITS || b == SIGN_MASK
}

/// The sign bit is set.
pub open spec fn is_neg(b: u64) -> bool {
    b & SIGN_MASK == SIGN_MASK
}

/// Neither a NaN nor an infinity.
pub open spec fn is_finite(b: u64) -> bool {
    b & EXP_MASK != EXP_MASK
}

/// The pattern of the negated number: the sign bit flipped.
pub open spec fn negated(b: u64) -> u64 {
    b ^ SIGN_MASK
}

/// Numeric equality: NaN equals nothing, the two zeroes are equal, and any
/// other pair is equal exactly when the patterns coincide.
pub open spec fn num_eq(a: u64, b: u64) -> bool {
    !is_nan(a) && !is_nan(b) && (a == b || (is_zero(a) && is_zero(b)))
}

/// Numeric strict order.  Non-NaN doubles of one sign order like their bit
/// patterns; negative ones order in reverse; across signs the non-negative
/// one is the greater, the two zeroes being equal.
pub open spec fn num_gt(a: u64, b: u64) -> bool {
    &&& !is_nan(a)
    &&& !is_nan(b)
    &&& !num_eq(a, b)
    &&& if is_neg(a) == is_neg(b) {
            if is_neg(a) {
                a < b
            } else {
                a > b
            }
        } else {
            !is_neg(a)
        }
}

/// Tests a pattern for NaN.
pub fn nan_bits(b: u64) -> (r: bool)
    ensures
        r == is_nan(b),
{
    b & EXP_MASK == EXP_MASK && b & FRAC_MASK != 0
}

/// Tests a pattern for positive or negative zero.
pub fn zero_bits(b: u64) -> (r: bool)
    ensures
        r == is_zero(b),
{
    b == ZERO_BITS || b == SIGN_MASK
}

/// Flips the sign bit: the verified negation of a double.
pub fn negate_bits(b: u64) -> (r: u64)
    ensures
        r == negated(b),
{
    b ^ SIGN_MASK
}

/// Numeric equality on bit patterns.
pub fn eq_bits(a: u64, b: u64) -> (r: bool)
    ensures
        r == num_eq(a, b),
{
    !nan_bits(a) && !nan_bits(b) && (a == b || (zero_bits(a) && zero_bits(b)))
}

/// Numeric strict order on bit patterns.
pub fn gt_bits(a: u64, b: u64) -> (r: bool)
    ensures
        r == num_gt(a, b),
{
    if nan_bits(a) || nan_bits(b) || eq_bits(a, b) {
        false
    } else {
        let na = a & SIGN_MASK == SIGN_MASK;
        let nb = b & SIGN_MASK == SIGN_MASK;
        if na == nb {
            if na {
                a < b
            } else {
                a > b
            }
        } else {
            !na
        }
    }
}

/// Negation is an involution: negating any number twice restores the very
/// same bit pattern, finite or not.
pub proof fn lemma_negate_involution(b: u64)
    ensures
        negated(negated(b)) == b,
{
    assert((b ^ 0x8000_0000_0000_0000u64) ^ 0x8000_0000_0000_0000u64 == b) by (bit_vector);
}

/// Negation never turns a number into a NaN or a NaN into a number.
pub proof fn lemma_negate_preserves_nan(b: u64)
    ensures
        is_nan(negated(b)) == is_nan(b),
{
    assert(((b ^ 0x8000_0000_0000_0000u64) & 0x7ff0_0000_0000_0000u64) == (b
        & 0x7ff0_0000_0000_0000u64)) by (bit_vector);
    assert(((b ^ 0x8000_0000_0000_0000u64) & 0x000f_ffff_ffff_ffffu64) == (b
        & 0x000f_ffff_ffff_ffffu64)) by (bit_vector);
}

/// Numeric equality is symmetric.
pub proof fn lemma_num_eq_sym(a: u64, b: u64)
    ensures
        num_eq(a, b) == num_eq(b, a),
{
}

/// Equal numbers are not ordered above one another, in either direction.
pub proof fn lemma_num_eq_excludes_gt(a: u64, b: u64)
    ensures
        num_eq(a, b) ==> !num_gt(a, b) && !num_gt(b, a),
{
}

} // verus!
