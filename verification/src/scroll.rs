//! The scroll easing engine: one scalar that closes a fixed fraction of its
//! distance to a target on every tick.

use vstd::prelude::*;
use vstd::arithmetic::power2::pow2;
use crate::bounds::{
    lemma_product_shape, lemma_sum_shape, lemma_sum_stays_above, lemma_sum_stays_below,
};
use crate::identities::{
    lemma_difference_of_equals, lemma_held_value_stays, lemma_plus_any_zero,
    lemma_product_with_zero,
};
use crate::product::times;
use crate::rounding::overflow_threshold;
use crate::single::{zero, Single, SIGN_BIT};
use crate::sum::{minus, plus};
use crate::value::{lemma_order_is_value_order, lemma_shift_splits};
use crate::whole::lemma_small_shifts;

verus! {

/// Pattern of 0.12, the fraction of the remaining distance closed per tick.
pub const EASE_BITS: u32 = 0x3df5_c28f;

/// The easing coefficient as a number.
pub open spec fn ease() -> Single {
    Single { bits: EASE_BITS }
}

/// `y` brought into the range from zero to `max`. A `y` that is not above
/// zero, a NaN among them, gives positive zero.
pub open spec fn clamp_to_range(y: Single, max: Single) -> Single {
    if !y.spec_gt(zero()) {
        zero()
    } else if y.spec_gt(max) {
        max
    } else {
        y
    }
}

/// `m` where it is above zero, else positive zero: so for a negative `m` and
/// for a NaN.
pub open spec fn floor_at_zero(m: Single) -> Single {
    if m.spec_gt(zero()) {
        m
    } else {
        zero()
    }
}

/// Clamping lands in the range: whatever `y` is, negative, huge or a NaN,
/// the clamped number lies between zero and `max`.
pub proof fn lemma_clamp_lands_in_range(y: Single, max: Single)
    requires
        zero().spec_le(max),
    ensures
        zero().spec_le(clamp_to_range(y, max)),
        clamp_to_range(y, max).spec_le(max),
{
}

/// A number inside the range is its own clamp, but for negative zero, which
/// becomes positive zero.
pub proof fn lemma_clamp_keeps_inner(y: Single, max: Single)
    requires
        zero().spec_le(y),
        y.spec_le(max),
    ensures
        clamp_to_range(y, max).spec_same_number(y),
        y.spec_gt(zero()) ==> clamp_to_range(y, max) == y,
{
}

/// The upper end of the range is never negative and never a NaN, whatever it
/// was set from.
pub proof fn lemma_max_never_negative(m: Single)
    ensures
        zero().spec_le(floor_at_zero(m)),
        !floor_at_zero(m).is_negative(),
        !floor_at_zero(m).is_nan(),
{
}

/// What a scroll engine holds.
pub struct ScrollView {
    /// Where the position is heading.
    pub target: Single,
    /// The position shown.
    pub current: Single,
    /// The step that the last tick took.
    pub velocity: Single,
    /// Upper end of the scrollable range.
    pub max: Single,
    /// Fraction of the remaining distance closed per tick.
    pub ease_factor: Single,
}

impl ScrollView {
    /// The step of one tick: the remaining distance times the easing
    /// coefficient.
    pub open spec fn step(self) -> Single {
        self.target.spec_minus(self.current).spec_times(self.ease_factor)
    }

    /// The state one tick later. A tick counts frames, not time.
    pub open spec fn ticked(self) -> ScrollView {
        ScrollView {
            velocity: self.step(),
            current: self.current.spec_plus(self.step()),
            ..self
        }
    }
}

/// At its target the position rests: a tick moves nothing, and the velocity
/// it records is zero.
pub proof fn lemma_rest_at_target(v: ScrollView)
    requires
        v.current == v.target,
        v.current.is_finite(),
        v.current.bits != SIGN_BIT,
        v.ease_factor == ease(),
    ensures
        v.ticked().current == v.current,
        v.ticked().velocity == zero(),
        v.ticked().target == v.target,
{
    lemma_difference_of_equals(v.current);
    lemma_product_with_zero(ease());
    lemma_plus_any_zero(v.current, zero());
}

/// The easing coefficient lies below an eighth.
proof fn lemma_ease_is_small()
    ensures
        ease().is_finite(),
        !ease().is_negative(),
        ease().scaled_magnitude() < pow2(146),
{
    let e = ease();
    assert(e.exponent_field() == 123 && e.fraction_field() == 0x75_c28f);
    lemma_shift_splits(24, 122);
    lemma_small_shifts();
    vstd::arithmetic::power2::lemma2_to64();
    assert(e.scaled_magnitude() < pow2(146)) by (nonlinear_arith)
        requires
            e.scaled_magnitude() == 0xf5_c28f * pow2(122),
            pow2(146) == 0x100_0000 * pow2(122),
            pow2(122) > 0,
    ;
}

/// The step of a tick points from the position to the target and is at most
/// half as long as the distance between them.
pub proof fn lemma_step_is_short(v: ScrollView)
    requires
        v.ease_factor == ease(),
        v.current.is_finite(),
        v.target.is_finite(),
        v.target.spec_minus(v.current).is_finite(),
    ensures
        v.step().is_finite(),
        v.target.scaled() >= v.current.scaled() ==> 0 <= 2 * v.step().scaled() <= v.target.scaled()
            - v.current.scaled(),
        v.target.scaled() <= v.current.scaled() ==> v.target.scaled() - v.current.scaled() <= 2
            * v.step().scaled() <= 0,
{
    let c = v.current;
    let t = v.target;
    let back = c.negated();
    assert(back.magnitude() == c.magnitude());
    assert(back.scaled_magnitude() == c.scaled_magnitude());
    assert(back.scaled() == -c.scaled());
    let d = t.spec_minus(c);
    lemma_sum_shape(t, back);
    lemma_ease_is_small();
    let e = ease();
    let step = d.spec_times(e);
    lemma_product_shape(d, e);
    lemma_held_value_stays(d);
    let far = d.scaled_magnitude();
    let small = e.scaled_magnitude();
    lemma_shift_splits(3, 146);
    vstd::arithmetic::power2::lemma2_to64();
    assert(2 * (far * small) < overflow_threshold() * pow2(149)) by (nonlinear_arith)
        requires
            far < overflow_threshold(),
            small < pow2(146),
            pow2(149) == 8 * pow2(146),
            pow2(146) > 0,
            far >= 0,
            small >= 0,
    ;
    assert(step.is_finite());
    assert(4 * step.scaled_magnitude() <= far) by (nonlinear_arith)
        requires
            step.scaled_magnitude() * pow2(149) <= 2 * (far * small),
            small < pow2(146),
            pow2(149) == 8 * pow2(146),
            pow2(146) > 0,
            far >= 0,
            small >= 0,
    ;
}

/// A tick never overshoots: it moves the position toward the target and not
/// past it. This holds while the distance between the two is within the
/// format.
pub proof fn lemma_tick_never_overshoots(v: ScrollView)
    requires
        v.ease_factor == ease(),
        v.current.is_finite(),
        v.target.is_finite(),
        v.target.spec_minus(v.current).is_finite(),
    ensures
        v.current.spec_le(v.target) ==> v.current.spec_le(v.ticked().current)
            && v.ticked().current.spec_le(v.target),
        v.target.spec_le(v.current) ==> v.target.spec_le(v.ticked().current)
            && v.ticked().current.spec_le(v.current),
{
    let c = v.current;
    let t = v.target;
    let step = v.step();
    lemma_step_is_short(v);
    lemma_order_is_value_order(c, t);
    lemma_order_is_value_order(t, c);
    if c.spec_le(t) {
        lemma_sum_stays_above(c, step, c);
        lemma_sum_stays_below(c, step, t);
    }
    if t.spec_le(c) {
        lemma_sum_stays_above(c, step, t);
        lemma_sum_stays_below(c, step, c);
    }
}

/// Inertial scroll position.
pub struct ScrollState {
    target: Single,
    current: Single,
    velocity: Single,
    max: Single,
    ease_factor: Single,
}

impl View for ScrollState {
    type V = ScrollView;

    closed spec fn view(&self) -> ScrollView {
        ScrollView {
            target: self.target,
            current: self.current,
            velocity: self.velocity,
            max: self.max,
            ease_factor: self.ease_factor,
        }
    }
}

impl ScrollState {
    /// Neither end of what the setters guard is ever negative or a NaN, and
    /// the easing coefficient never changes.
    #[verifier::type_invariant]
    spec fn guarded(self) -> bool {
        &&& zero().spec_le(self.max)
        &&& zero().spec_le(self.target)
        &&& self.ease_factor == ease()
    }

    /// An engine at rest at position zero, with an empty range.
    pub fn new() -> (s: ScrollState)
        ensures
            s@ == (ScrollView {
                target: zero(),
                current: zero(),
                velocity: zero(),
                max: zero(),
                ease_factor: ease(),
            }),
    {
        ScrollState {
            target: Single { bits: 0 },
            current: Single { bits: 0 },
            velocity: Single { bits: 0 },
            max: Single { bits: 0 },
            ease_factor: Single { bits: EASE_BITS },
        }
    }

    /// Sets the target to `y` clamped into the range. Whatever `y` is, the
    /// new target lies between zero and `max`.
    pub fn set_target(&mut self, y: Single)
        ensures
            final(self)@ == (ScrollView { target: clamp_to_range(y, old(self)@.max), ..old(self)@ }),
            zero().spec_le(final(self)@.target),
            final(self)@.target.spec_le(final(self)@.max),
    {
        proof {
            use_type_invariant(&*self);
        }
        let target = if !y.gt(Single { bits: 0 }) {
            Single { bits: 0 }
        } else if y.gt(self.max) {
            self.max
        } else {
            y
        };
        self.target = target;
    }

    /// Moves the position to `y` at once. The velocity becomes zero, so the
    /// jump leaves no spike in it.
    pub fn set_current(&mut self, y: Single)
        ensures
            final(self)@ == (ScrollView { current: y, velocity: zero(), ..old(self)@ }),
    {
        proof {
            use_type_invariant(&*self);
        }
        self.current = y;
        self.velocity = Single { bits: 0 };
    }

    /// Sets the upper end of the range to `m`, or to zero where `m` is not
    /// above zero. The target stays as it is, also where it is now above the
    /// range: the next `set_target` brings it back in.
    pub fn set_max(&mut self, m: Single)
        ensures
            final(self)@ == (ScrollView { max: floor_at_zero(m), ..old(self)@ }),
            zero().spec_le(final(self)@.max),
    {
        proof {
            use_type_invariant(&*self);
        }
        let max = if m.gt(Single { bits: 0 }) {
            m
        } else {
            Single { bits: 0 }
        };
        self.max = max;
    }

    /// Advances one frame: the position moves by the easing coefficient times
    /// its distance to the target, and the velocity records that step.
    pub fn tick(&mut self)
        ensures
            final(self)@ == old(self)@.ticked(),
    {
        proof {
            use_type_invariant(&*self);
        }
        let delta = times(minus(self.target, self.current), self.ease_factor);
        self.velocity = delta;
        self.current = plus(self.current, delta);
    }

    /// The position shown.
    pub fn current_value(&self) -> (r: Single)
        ensures
            r == self@.current,
    {
        self.current
    }

    /// The step that the last tick took.
    pub fn velocity_value(&self) -> (r: Single)
        ensures
            r == self@.velocity,
    {
        self.velocity
    }

    /// Where the position is heading. It is never negative and never a NaN.
    pub fn target_value(&self) -> (r: Single)
        ensures
            r == self@.target,
            zero().spec_le(r),
    {
        proof {
            use_type_invariant(self);
        }
        self.target
    }

    /// Upper end of the range. It is never negative and never a NaN.
    pub fn max_value(&self) -> (r: Single)
        ensures
            r == self@.max,
            zero().spec_le(r),
    {
        proof {
            use_type_invariant(self);
        }
        self.max
    }
}

} // verus!
