//! Bounds on the results of the operations.
//!
//! A rounded sum or product lies on the same side of every number of the
//! format as the exact one, has its sign, and is at most twice as far from
//! zero. From that follows a calculus of magnitudes: what is within a power
//! of two stays within a power of two under sum, difference, product,
//! quotient and root.

use vstd::prelude::*;
use vstd::arithmetic::power2::{lemma_pow2_pos, pow2};
use crate::nearest::{
    lemma_rounded_at_most_double, lemma_rounded_has_pattern, lemma_rounded_stays_above, lemma_rounded_stays_below,
};
use crate::rounding::{overflow_threshold, pattern_of, rounded, signed};
use crate::single::{zero, Single};
use crate::sum::distance_from_zero;
use crate::value::{lemma_order_is_value_order, lemma_zero_value};
use crate::whole::lemma_small_shifts;

verus! {

/// The sum of two finite numbers is never a NaN. Where it is finite, it has
/// the sign of the exact sum and is at most twice as far from zero.
pub proof fn lemma_sum_shape(a: Single, b: Single)
    requires
        a.is_finite(),
        b.is_finite(),
    ensures
        !a.spec_plus(b).is_nan(),
        a.spec_plus(b).is_finite() && a.scaled() + b.scaled() >= 0 ==> 0 <= a.spec_plus(b).scaled()
            <= 2 * (a.scaled() + b.scaled()),
        a.spec_plus(b).is_finite() && a.scaled() + b.scaled() <= 0 ==> 2 * (a.scaled() + b.scaled())
            <= a.spec_plus(b).scaled() <= 0,
{
    reveal(Single::spec_plus);
    lemma_small_shifts();
    let sum = a.scaled() + b.scaled();
    let r = a.spec_plus(b);
    if sum == 0 {
        lemma_zero_value(r);
    } else {
        let far = distance_from_zero(sum);
        lemma_rounded_has_pattern(far, 0);
        lemma_rounded_at_most_double(far, 0);
        let m = pattern_of(rounded(far, 0));
        assert(r == signed(sum < 0, m));
        assert(r.magnitude() == m);
        assert(rounded(far, 0) * pow2(0) == rounded(far, 0)) by (nonlinear_arith)
            requires
                pow2(0) == 1,
        ;
        if r.is_finite() {
            assert((Single { bits: m }).scaled_magnitude() == r.scaled_magnitude());
        }
    }
}

/// A number of the format that is not below the exact sum is not below the
/// rounded sum.
pub proof fn lemma_sum_stays_below(a: Single, b: Single, v: Single)
    requires
        a.is_finite(),
        b.is_finite(),
        v.is_finite(),
        v.scaled() >= a.scaled() + b.scaled(),
    ensures
        a.spec_plus(b).spec_le(v),
{
    reveal(Single::spec_plus);
    lemma_small_shifts();
    let sum = a.scaled() + b.scaled();
    let r = a.spec_plus(b);
    lemma_zero_value(v);
    if sum == 0 {
        lemma_zero_value(r);
    } else {
        let far = distance_from_zero(sum);
        lemma_rounded_has_pattern(far, 0);
        let m = pattern_of(rounded(far, 0));
        assert(r == signed(sum < 0, m));
        assert(r.magnitude() == m);
        assert(far * pow2(0) == far && v.scaled_magnitude() * pow2(0) == v.scaled_magnitude())
            by (nonlinear_arith)
            requires
                pow2(0) == 1,
        ;
        if sum > 0 {
            lemma_rounded_stays_below(far, 0, v);
            assert((Single { bits: m }).scaled_magnitude() == r.scaled_magnitude());
            lemma_order_is_value_order(r, v);
        } else if v.scaled() < 0 {
            lemma_rounded_stays_above(far, 0, v);
            if r.is_finite() {
                assert((Single { bits: m }).scaled_magnitude() == r.scaled_magnitude());
                lemma_order_is_value_order(r, v);
            }
        }
    }
}

/// A number of the format that is not above the exact sum is not above the
/// rounded sum.
pub proof fn lemma_sum_stays_above(a: Single, b: Single, v: Single)
    requires
        a.is_finite(),
        b.is_finite(),
        v.is_finite(),
        v.scaled() <= a.scaled() + b.scaled(),
    ensures
        v.spec_le(a.spec_plus(b)),
{
    reveal(Single::spec_plus);
    lemma_small_shifts();
    let sum = a.scaled() + b.scaled();
    let r = a.spec_plus(b);
    lemma_zero_value(v);
    if sum == 0 {
        lemma_zero_value(r);
    } else {
        let far = distance_from_zero(sum);
        lemma_rounded_has_pattern(far, 0);
        let m = pattern_of(rounded(far, 0));
        assert(r == signed(sum < 0, m));
        assert(r.magnitude() == m);
        assert(far * pow2(0) == far && v.scaled_magnitude() * pow2(0) == v.scaled_magnitude())
            by (nonlinear_arith)
            requires
                pow2(0) == 1,
        ;
        if sum < 0 {
            lemma_rounded_stays_below(far, 0, v);
            assert((Single { bits: m }).scaled_magnitude() == r.scaled_magnitude());
            lemma_order_is_value_order(v, r);
        } else if v.scaled() > 0 {
            lemma_rounded_stays_above(far, 0, v);
            if r.is_finite() {
                assert((Single { bits: m }).scaled_magnitude() == r.scaled_magnitude());
                lemma_order_is_value_order(v, r);
            }
        }
    }
}

/// The product of two finite numbers is never a NaN and has the sign of the
/// exact product. It is finite where the exact product is below 2^127, and
/// then at most twice as far from zero.
pub proof fn lemma_product_shape(a: Single, b: Single)
    requires
        a.is_finite(),
        b.is_finite(),
    ensures
        !a.spec_times(b).is_nan(),
        a.spec_times(b).is_negative() == (a.is_negative() != b.is_negative()),
        2 * (a.scaled_magnitude() * b.scaled_magnitude()) < overflow_threshold() * pow2(149)
            ==> a.spec_times(b).is_finite(),
        a.spec_times(b).is_finite() ==> a.spec_times(b).scaled_magnitude() * pow2(149) <= 2 * (
        a.scaled_magnitude() * b.scaled_magnitude()),
{
    reveal(Single::spec_times);
    let exact = a.scaled_magnitude() * b.scaled_magnitude();
    let r = a.spec_times(b);
    lemma_rounded_has_pattern(exact, 149);
    lemma_rounded_at_most_double(exact, 149);
    let value = rounded(exact, 149);
    let m = pattern_of(value);
    assert(r == signed(a.is_negative() != b.is_negative(), m));
    assert(r.magnitude() == m);
    lemma_pow2_pos(149);
    if 2 * exact < overflow_threshold() * pow2(149) {
        assert(value < overflow_threshold()) by (nonlinear_arith)
            requires
                value * pow2(149) <= 2 * exact,
                2 * exact < overflow_threshold() * pow2(149),
                pow2(149) > 0,
        ;
    }
    if r.is_finite() {
        assert((Single { bits: m }).scaled_magnitude() == r.scaled_magnitude());
    }
}

/// A number of the format that is not below the exact product of two
/// numbers is not below the rounded product. The bound is stated for the
/// absolute values, against a number that is not negative.
pub proof fn lemma_product_stays_below(a: Single, b: Single, v: Single)
    requires
        a.is_finite(),
        b.is_finite(),
        v.is_finite(),
        v.scaled() >= 0,
        v.scaled_magnitude() * pow2(149) >= a.scaled_magnitude() * b.scaled_magnitude(),
    ensures
        a.spec_times(b).is_finite(),
        a.spec_times(b).scaled_magnitude() <= v.scaled_magnitude(),
        a.spec_times(b).spec_le(v),
        a.is_negative() == b.is_negative() || a.is_zero() || b.is_zero() ==> zero().spec_le(
            a.spec_times(b),
        ),
{
    reveal(Single::spec_times);
    let exact = a.scaled_magnitude() * b.scaled_magnitude();
    let r = a.spec_times(b);
    lemma_rounded_has_pattern(exact, 149);
    lemma_rounded_stays_below(exact, 149, v);
    let value = rounded(exact, 149);
    let m = pattern_of(value);
    assert(r == signed(a.is_negative() != b.is_negative(), m));
    assert(r.magnitude() == m);
    assert((Single { bits: m }).scaled_magnitude() == r.scaled_magnitude());
    lemma_order_is_value_order(r, v);
    lemma_zero_value(r);
    lemma_zero_value(a);
    lemma_zero_value(b);
    if a.is_zero() || b.is_zero() {
        assert(exact == 0) by (nonlinear_arith)
            requires
                exact == a.scaled_magnitude() * b.scaled_magnitude(),
                a.scaled_magnitude() == 0 || b.scaled_magnitude() == 0,
        ;
        crate::identities::lemma_product_with_zero(a);
        crate::identities::lemma_product_with_zero(b);
    }
}

/// A number of the format that is not above the exact product of two
/// numbers, in absolute value, is not above the rounded product.
pub proof fn lemma_product_stays_above(a: Single, b: Single, v: Single)
    requires
        a.is_finite(),
        b.is_finite(),
        v.is_finite(),
        v.scaled_magnitude() * pow2(149) <= a.scaled_magnitude() * b.scaled_magnitude(),
    ensures
        a.spec_times(b).is_finite() ==> v.scaled_magnitude() <= a.spec_times(b).scaled_magnitude(),
{
    reveal(Single::spec_times);
    let exact = a.scaled_magnitude() * b.scaled_magnitude();
    let r = a.spec_times(b);
    lemma_rounded_has_pattern(exact, 149);
    lemma_rounded_stays_above(exact, 149, v);
    let m = pattern_of(rounded(exact, 149));
    assert(r == signed(a.is_negative() != b.is_negative(), m));
    assert(r.magnitude() == m);
    if r.is_finite() {
        assert((Single { bits: m }).scaled_magnitude() == r.scaled_magnitude());
    }
}

/// `x` is finite and at most `2^k` in absolute value.
pub open spec fn within(x: Single, k: nat) -> bool {
    x.is_finite() && x.scaled_magnitude() <= pow2(k + 149)
}

/// `x` is finite and at least `2^-j` in absolute value.
pub open spec fn at_least(x: Single, j: nat) -> bool {
    x.is_finite() && j <= 126 && x.scaled_magnitude() >= pow2((149 - j) as nat)
}

/// The power of two `2^e` as a number of the format.
pub open spec fn power(e: int) -> Single {
    Single { bits: ((127 + e) * 0x80_0000) as u32 }
}

/// The value of a power of two.
pub proof fn lemma_power_value(e: int)
    requires
        -126 <= e <= 127,
    ensures
        power(e).is_finite(),
        !power(e).is_negative(),
        power(e).scaled_magnitude() == pow2((149 + e) as nat),
{
    let p = power(e);
    lemma_small_shifts();
    assert(p.magnitude() == (127 + e) * 0x80_0000);
    assert(p.exponent_field() == 127 + e);
    assert(p.fraction_field() == 0);
    crate::value::lemma_shift_splits(23, (126 + e) as nat);
}

/// What is within a bound is within every larger bound.
pub proof fn lemma_within_grows(x: Single, k: nat, larger: nat)
    requires
        within(x, k),
        k <= larger,
    ensures
        within(x, larger),
{
    if k < larger {
        vstd::arithmetic::power2::lemma_pow2_strictly_increases(k + 149, larger + 149);
    }
}

/// The sum of two numbers within `2^k` is within `2^(k + 1)`.
pub proof fn lemma_sum_within(a: Single, b: Single, k: nat)
    requires
        within(a, k),
        within(b, k),
        k <= 126,
    ensures
        within(a.spec_plus(b), k + 1),
{
    reveal(Single::spec_plus);
    lemma_small_shifts();
    let sum = a.scaled() + b.scaled();
    let r = a.spec_plus(b);
    let top = power((k + 1) as int);
    lemma_power_value((k + 1) as int);
    vstd::arithmetic::power2::lemma_pow2_unfold(k + 150);
    if sum == 0 {
        lemma_zero_value(r);
    } else {
        let far = distance_from_zero(sum);
        lemma_rounded_has_pattern(far, 0);
        assert(far * pow2(0) == far && top.scaled_magnitude() * pow2(0) == top.scaled_magnitude())
            by (nonlinear_arith)
            requires
                pow2(0) == 1,
        ;
        lemma_rounded_stays_below(far, 0, top);
        let m = pattern_of(rounded(far, 0));
        assert(r == signed(sum < 0, m));
        assert(r.magnitude() == m);
        assert((Single { bits: m }).scaled_magnitude() == r.scaled_magnitude());
    }
}

/// The difference of two numbers within `2^k` is within `2^(k + 1)`.
pub proof fn lemma_difference_within(a: Single, b: Single, k: nat)
    requires
        within(a, k),
        within(b, k),
        k <= 126,
    ensures
        within(a.spec_minus(b), k + 1),
{
    let back = b.negated();
    assert(back.magnitude() == b.magnitude());
    assert(back.scaled_magnitude() == b.scaled_magnitude());
    lemma_sum_within(a, back, k);
}

/// The product of a number within `2^i` and one within `2^j` is within
/// `2^(i + j)`.
pub proof fn lemma_product_within(a: Single, b: Single, i: nat, j: nat)
    requires
        within(a, i),
        within(b, j),
        i + j <= 127,
    ensures
        within(a.spec_times(b), i + j),
{
    let top = power((i + j) as int);
    lemma_power_value((i + j) as int);
    vstd::arithmetic::power2::lemma_pow2_adds(i + 149, j + 149);
    vstd::arithmetic::power2::lemma_pow2_adds(i + j + 149, 149);
    assert(top.scaled_magnitude() * pow2(149) >= a.scaled_magnitude() * b.scaled_magnitude())
        by (nonlinear_arith)
        requires
            top.scaled_magnitude() * pow2(149) == pow2(i + 149) * pow2(j + 149),
            a.scaled_magnitude() <= pow2(i + 149),
            b.scaled_magnitude() <= pow2(j + 149),
    ;
    lemma_product_stays_below(a, b, top);
}

/// The quotient of a number within `2^i` by one of at least `2^-j` is
/// within `2^(i + j)`.
pub proof fn lemma_quotient_within(a: Single, b: Single, i: nat, j: nat)
    requires
        within(a, i),
        at_least(b, j),
        i + j <= 127,
    ensures
        within(a.spec_over(b), i + j),
{
    reveal(Single::spec_over);
    let r = a.spec_over(b);
    let top = power((i + j) as int);
    lemma_power_value((i + j) as int);
    lemma_zero_value(a);
    lemma_zero_value(b);
    vstd::arithmetic::power2::lemma_pow2_pos((149 - j) as nat);
    lemma_pow2_pos(i + j + 149);
    if a.is_zero() {
        assert(r.is_zero());
        lemma_zero_value(r);
    } else {
        let num = a.scaled_magnitude() * pow2(149);
        let den = b.scaled_magnitude();
        vstd::arithmetic::power2::lemma_pow2_adds(i + j + 149, (149 - j) as nat);
        vstd::arithmetic::power2::lemma_pow2_adds(i + 149, 149);
        assert(top.scaled_magnitude() * den >= num) by (nonlinear_arith)
            requires
                top.scaled_magnitude() * pow2((149 - j) as nat) == pow2(i + 149) * pow2(149),
                den >= pow2((149 - j) as nat),
                a.scaled_magnitude() <= pow2(i + 149),
                num == a.scaled_magnitude() * pow2(149),
                top.scaled_magnitude() >= 0,
                pow2(149) >= 0,
        ;
        crate::nearest::lemma_ratio_stays_below(num, den, top);
        let m = pattern_of(crate::quotient::rounded_ratio(num, den));
        assert(r.magnitude() == m);
        assert((Single { bits: m }).scaled_magnitude() == r.scaled_magnitude());
    }
}

/// The root of a number between `2^(-2j)` and `2^(2i)` lies between `2^-j`
/// and `2^i`.
pub proof fn lemma_root_within(x: Single, i: nat, j: nat)
    requires
        x.is_finite(),
        !x.is_negative(),
        x.scaled_magnitude() <= pow2(2 * i + 149),
        x.scaled_magnitude() >= pow2((149 - 2 * j) as nat),
        i <= 127,
        2 * j <= 126,
    ensures
        within(x.spec_root(), i),
        at_least(x.spec_root(), j),
{
    reveal(Single::spec_root);
    let r = x.spec_root();
    let top = power(i as int);
    let bottom = power(-(j as int));
    lemma_power_value(i as int);
    lemma_power_value(-(j as int));
    lemma_zero_value(x);
    vstd::arithmetic::power2::lemma_pow2_pos((149 - 2 * j) as nat);
    let w = x.scaled_magnitude() * pow2(149);
    vstd::arithmetic::power2::lemma_pow2_adds(i + 149, i + 149);
    vstd::arithmetic::power2::lemma_pow2_adds(2 * i + 149, 149);
    vstd::arithmetic::power2::lemma_pow2_adds((149 - j) as nat, (149 - j) as nat);
    vstd::arithmetic::power2::lemma_pow2_adds((149 - 2 * j) as nat, 149);
    lemma_pow2_pos(149);
    assert(top.scaled_magnitude() * top.scaled_magnitude() >= w) by (nonlinear_arith)
        requires
            top.scaled_magnitude() * top.scaled_magnitude() == pow2(2 * i + 149) * pow2(149),
            x.scaled_magnitude() <= pow2(2 * i + 149),
            w == x.scaled_magnitude() * pow2(149),
            pow2(149) > 0,
    ;
    assert(bottom.scaled_magnitude() * bottom.scaled_magnitude() <= w) by (nonlinear_arith)
        requires
            bottom.scaled_magnitude() * bottom.scaled_magnitude() == pow2((149 - 2 * j) as nat)
                * pow2(149),
            x.scaled_magnitude() >= pow2((149 - 2 * j) as nat),
            w == x.scaled_magnitude() * pow2(149),
            pow2(149) > 0,
    ;
    crate::nearest::lemma_root_stays_below(w, top);
    crate::nearest::lemma_root_stays_above(w, bottom);
    let m = pattern_of(crate::root::rounded_root(w));
    assert(r == signed(false, m));
    assert(r.magnitude() == m);
    assert((Single { bits: m }).scaled_magnitude() == r.scaled_magnitude());
}

} // verus!
