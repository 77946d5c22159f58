//! What the rounded operations do with zeros and with equal numbers.
//!
//! These are the cases in which nothing is rounded. The engines rest on them
//! where they come to rest.

use vstd::prelude::*;
use vstd::arithmetic::power2::{lemma_pow2_pos, lemma_pow2_strictly_increases, pow2};
use crate::rounding::{
    lemma_packed_is_one, lemma_rounded_by_parts, overflow_threshold, pattern_of, rounded, signed,
};
use crate::single::{zero, Single, SIGN_BIT};
use crate::sum::{distance_from_zero, finite_sum};
use crate::value::lemma_zero_value;
use crate::whole::lemma_small_shifts;

verus! {

/// A value that the format holds is not moved by rounding, and its pattern
/// is the one that holds it.
pub proof fn lemma_held_value_stays(x: Single)
    requires
        x.is_finite(),
    ensures
        rounded(x.scaled_magnitude(), 0) == x.scaled_magnitude(),
        pattern_of(x.scaled_magnitude()) == x.magnitude(),
        x.scaled_magnitude() < overflow_threshold(),
{
    let value = x.scaled_magnitude();
    let sig = x.significand();
    let shift = x.shift();
    lemma_small_shifts();
    lemma_pow2_pos(shift);
    lemma_pow2_pos(253);
    assert(value * pow2(0) == value) by (nonlinear_arith)
        requires
            pow2(0) == 1,
    ;
    lemma_rounded_by_parts(value, 0, 0, sig, shift, 0);
    if shift < 253 {
        lemma_pow2_strictly_increases(shift, 253);
    }
    assert(value < overflow_threshold()) by (nonlinear_arith)
        requires
            value == sig * pow2(shift),
            sig < 0x100_0000,
            0 < pow2(shift) <= pow2(253),
            overflow_threshold() == 0x100_0000 * pow2(253),
    ;
    let m = x.magnitude() as u32;
    assert((Single { bits: m }).scaled_magnitude() == value);
    lemma_packed_is_one(m, value);
}

/// Adding a zero of either sign to a finite number that is not zero leaves
/// the number as it is.
pub proof fn lemma_sum_with_zero(x: Single, z: Single)
    requires
        x.is_finite(),
        !x.is_zero(),
        z.is_zero(),
    ensures
        x.spec_plus(z) == x,
        z.spec_plus(x) == x,
{
    reveal(Single::spec_plus);
    lemma_zero_value(x);
    lemma_zero_value(z);
    lemma_held_value_stays(x);
    let sum = x.scaled() + z.scaled();
    assert(sum == x.scaled());
    assert(distance_from_zero(sum) == x.scaled_magnitude());
    assert(finite_sum(x, z) == signed(x.is_negative(), x.magnitude() as u32));
    assert(finite_sum(z, x) == signed(x.is_negative(), x.magnitude() as u32));
}

/// The sum of two positive zeros is positive zero.
pub proof fn lemma_sum_of_zeros()
    ensures
        zero().spec_plus(zero()) == zero(),
{
    reveal(Single::spec_plus);
    lemma_zero_value(zero());
}

/// Adding a zero of either sign leaves every finite number as it is, but
/// for negative zero.
pub proof fn lemma_plus_any_zero(x: Single, z: Single)
    requires
        x.is_finite(),
        x.bits != SIGN_BIT,
        z.is_zero(),
    ensures
        x.spec_plus(z) == x,
{
    if x.is_zero() {
        reveal(Single::spec_plus);
        lemma_zero_value(x);
        lemma_zero_value(z);
    } else {
        lemma_sum_with_zero(x, z);
    }
}

/// A finite number less itself is positive zero.
pub proof fn lemma_difference_of_equals(x: Single)
    requires
        x.is_finite(),
    ensures
        x.spec_minus(x) == zero(),
{
    reveal(Single::spec_plus);
    let y = x.negated();
    assert(y.magnitude() == x.magnitude());
    assert(y.scaled_magnitude() == x.scaled_magnitude());
    assert(x.scaled() + y.scaled() == 0);
}

/// Positive zero times a finite number is a zero, negative where the number
/// is.
pub proof fn lemma_product_with_zero(x: Single)
    requires
        x.is_finite(),
    ensures
        zero().spec_times(x) == signed(x.is_negative(), 0),
        x.spec_times(zero()) == signed(x.is_negative(), 0),
{
    reveal(Single::spec_times);
    lemma_zero_value(zero());
    lemma_small_shifts();
    let other = x.scaled_magnitude();
    assert(0 * other == 0 && other * 0 == 0 && 0 * pow2(149) == 0 && 0 * pow2(0) == 0)
        by (nonlinear_arith);
    lemma_pow2_pos(149);
    lemma_rounded_by_parts(0, 0, 149, 0, 149, 0);
    lemma_pow2_pos(253);
    lemma_packed_is_one(0, 0);
}

} // verus!
