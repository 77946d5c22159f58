//! Where a particle starts: a position hashed from its index.
//!
//! The hash is no random number generator. It is a fixed function of the
//! seed, so that two fields built alike are alike.

use vstd::prelude::*;
use vstd::arithmetic::power2::pow2;
use crate::bounds::{
    lemma_product_shape, lemma_product_stays_below, lemma_sum_shape, lemma_sum_stays_above,
    lemma_sum_stays_below,
};
use crate::floor::{lemma_floor_exists, lemma_floor_is_near, lemma_value_of_one};
use crate::product::times;
use crate::sine::sine;
use crate::single::{one, zero, Single};
use crate::sum::{minus, plus};
use crate::value::{lemma_order_is_value_order, lemma_zero_value};
use crate::whole::whole;

verus! {

/// Pattern of 12.9898, the factor applied to the seed.
pub const HASH_FACTOR_BITS: u32 = 0x414f_d639;

/// Pattern of 78.233, the phase added to the scaled seed.
pub const HASH_PHASE_BITS: u32 = 0x429c_774c;

/// Pattern of 43758.5453, the factor applied to the sine.
pub const HASH_SPREAD_BITS: u32 = 0x472a_ee8c;

/// Pattern of 1.1, the seed's step between particles along x.
pub const SEED_STEP_X_BITS: u32 = 0x3f8c_cccd;

/// Pattern of 2.3, the seed's step between particles along y.
pub const SEED_STEP_Y_BITS: u32 = 0x4013_3333;

/// Pattern of 100, which sets the seeds for y apart from those for x.
pub const SEED_OFFSET_Y_BITS: u32 = 0x42c8_0000;

/// `sin(seed * 12.9898 + 78.233) * 43758.5453`.
pub open spec fn scaled_sine(seed: Single) -> Single {
    seed.spec_times(Single { bits: HASH_FACTOR_BITS }).spec_plus(
        Single { bits: HASH_PHASE_BITS },
    ).spec_sine().spec_times(Single { bits: HASH_SPREAD_BITS })
}

/// The hash of `seed`: what lies of the scaled sine above its floor.
pub open spec fn hash(seed: Single) -> Single {
    scaled_sine(seed).spec_minus(scaled_sine(seed).floored())
}

/// The point at fraction `t` of the way from `a` to `b`: `a + (b - a) * t`.
pub open spec fn blend(a: Single, b: Single, t: Single) -> Single {
    a.spec_plus(b.spec_minus(a).spec_times(t))
}

/// The seed for the x coordinate of particle `i`: `i * 1.1`.
pub open spec fn seed_x(i: nat) -> Single {
    whole(i).spec_times(Single { bits: SEED_STEP_X_BITS })
}

/// The seed for the y coordinate of particle `i`: `i * 2.3 + 100`.
pub open spec fn seed_y(i: nat) -> Single {
    whole(i).spec_times(Single { bits: SEED_STEP_Y_BITS }).spec_plus(
        Single { bits: SEED_OFFSET_Y_BITS },
    )
}

/// The x coordinate at which particle `i` is anchored in a field `width`
/// wide.
pub open spec fn home_x(i: nat, width: Single) -> Single {
    hash(seed_x(i)).spec_times(width)
}

/// The y coordinate at which particle `i` is anchored in a field `height`
/// high.
pub open spec fn home_y(i: nat, height: Single) -> Single {
    hash(seed_y(i)).spec_times(height)
}

/// What lies of a finite number above its floor is at least zero and at
/// most one. One itself is reached, by rounding, just below a whole number.
pub proof fn lemma_fraction_in_unit_range(s: Single)
    requires
        s.is_finite(),
    ensures
        zero().spec_le(s.spec_minus(s.floored())),
        s.spec_minus(s.floored()).spec_le(one()),
{
    let f = s.floored();
    lemma_floor_is_near(s);
    let back = f.negated();
    assert(back.magnitude() == f.magnitude());
    assert(back.scaled_magnitude() == f.scaled_magnitude());
    assert(back.scaled() == -f.scaled());
    lemma_value_of_one();
    lemma_zero_value(zero());
    lemma_sum_stays_above(s, back, zero());
    lemma_sum_stays_below(s, back, one());
}

/// The hash is a number between zero and one, both included, or it is a
/// NaN; and a NaN it is only where the scaled sine is not finite. Its sign
/// bit is set only on a NaN.
pub proof fn lemma_hash_in_unit_range(seed: Single)
    ensures
        hash(seed).is_nan() || (zero().spec_le(hash(seed)) && hash(seed).spec_le(one())
            && !hash(seed).is_negative()),
        scaled_sine(seed).is_finite() ==> !hash(seed).is_nan(),
{
    let s = scaled_sine(seed);
    if s.is_finite() {
        lemma_fraction_in_unit_range(s);
        let f = s.floored();
        lemma_floor_exists(s);
        lemma_floor_is_near(s);
        let back = f.negated();
        assert(back.magnitude() == f.magnitude());
        assert(back.scaled_magnitude() == f.scaled_magnitude());
        assert(back.scaled() == -f.scaled());
        lemma_sum_shape(s, back);
        lemma_zero_value(hash(seed));
        assert(!hash(seed).is_negative()) by {
            reveal(Single::spec_plus);
            assert(f.is_negative() == s.is_negative());
            assert(back.is_negative() != f.is_negative());
            assert(hash(seed) == crate::sum::finite_sum(s, back));
            let sum = s.scaled() + back.scaled();
            assert(sum >= 0);
            crate::nearest::lemma_rounded_has_pattern(crate::sum::distance_from_zero(sum), 0);
        }
    } else {
        reveal(Single::spec_plus);
    }
}

/// The product of a number between zero and one with a width that is finite
/// and not negative lies between zero and the width.
pub proof fn lemma_anchor_in_field(h: Single, width: Single)
    requires
        zero().spec_le(h),
        h.spec_le(one()),
        width.is_finite(),
        zero().spec_le(width),
    ensures
        h.spec_times(width).is_finite(),
        zero().spec_le(h.spec_times(width)),
        h.spec_times(width).spec_le(width),
        h.spec_times(width).is_negative() == (h.is_negative() != width.is_negative()),
{
    lemma_product_shape(h, width);
    lemma_value_of_one();
    lemma_zero_value(zero());
    lemma_zero_value(h);
    lemma_zero_value(width);
    lemma_order_is_value_order(zero(), h);
    lemma_order_is_value_order(h, one());
    lemma_order_is_value_order(zero(), width);
    let a = h.scaled_magnitude();
    let w = width.scaled_magnitude();
    assert(a <= pow2(149));
    assert(w * pow2(149) >= a * w) by (nonlinear_arith)
        requires
            a <= pow2(149),
            w >= 0,
    ;
    lemma_product_stays_below(h, width, width);
}

/// Hashes `seed` to a number that is the same on every call.
pub fn pseudo_random(seed: Single) -> (r: Single)
    ensures
        r == hash(seed),
{
    let s = times(
        sine(plus(times(seed, Single { bits: HASH_FACTOR_BITS }), Single { bits: HASH_PHASE_BITS })),
        Single { bits: HASH_SPREAD_BITS },
    );
    minus(s, s.floor())
}

/// Moves from `a` toward `b` by the fraction `t`.
pub fn lerp(a: Single, b: Single, t: Single) -> (r: Single)
    ensures
        r == blend(a, b, t),
{
    plus(a, times(minus(b, a), t))
}

/// The anchor of particle `i` in a field of the given size, as x and y.
pub fn home_of(i: usize, width: Single, height: Single) -> (r: (Single, Single))
    ensures
        r.0 == home_x(i as nat, width),
        r.1 == home_y(i as nat, height),
{
    let seed = Single::from_whole(i as u64);
    let x = times(pseudo_random(times(seed, Single { bits: SEED_STEP_X_BITS })), width);
    let y = times(
        pseudo_random(
            plus(times(seed, Single { bits: SEED_STEP_Y_BITS }), Single { bits: SEED_OFFSET_Y_BITS }),
        ),
        height,
    );
    (x, y)
}

} // verus!
