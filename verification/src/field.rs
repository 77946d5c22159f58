//! The particle field engine.
//!
//! Each particle is pulled to its anchor by a spring and pushed away from the
//! pointer while the pointer is near. Positions, velocities and anchors lie
//! in three buffers of equal length, two slots per particle, x before y.

use vstd::prelude::*;
use vstd::arithmetic::power2::{lemma_pow2_pos, pow2};
use crate::bounds::{
    at_least, lemma_difference_within, lemma_power_value, lemma_product_shape,
    lemma_product_stays_above, lemma_product_stays_below, lemma_product_within,
    lemma_quotient_within, lemma_root_within, lemma_sum_shape, lemma_sum_stays_above,
    lemma_sum_within, lemma_within_grows, power, within,
};
use crate::identities::{
    lemma_difference_of_equals, lemma_held_value_stays, lemma_plus_any_zero,
    lemma_product_with_zero, lemma_sum_of_zeros,
};
use crate::product::times;
use crate::quotient::over;
use crate::root::root;
use crate::rounding::lemma_rounded_cancels;
use crate::seed::{
    blend, hash, home_of, home_x, home_y, lemma_anchor_in_field, lemma_hash_in_unit_range, lerp,
    seed_x, seed_y,
};
use crate::single::{one, zero, Single, SIGN_BIT};
use crate::sum::{minus, plus};
use crate::value::{lemma_order_is_value_order, lemma_shift_splits, lemma_zero_value};
use crate::whole::lemma_small_shifts;

verus! {

/// Pattern of 0.015, the pull of the spring per unit of distance.
pub const SPRING_STIFFNESS_BITS: u32 = 0x3c75_c28f;

/// Pattern of 0.92, the part of the velocity that a step keeps.
pub const DAMPING_BITS: u32 = 0x3f6b_851f;

/// Pattern of 150, the distance within which the pointer pushes.
pub const MOUSE_RADIUS_BITS: u32 = 0x4316_0000;

/// Pattern of 8, the push at the pointer itself.
pub const MOUSE_STRENGTH_BITS: u32 = 0x4100_0000;

/// Pattern of 0.1, the longest time step in seconds that is taken as it is.
pub const LONGEST_STEP_BITS: u32 = 0x3dcc_cccd;

/// Pattern of 60, the frame rate at which the scale of a step is one.
pub const BASE_RATE_BITS: u32 = 0x4270_0000;

/// Pattern of 0.01, the squared distance at or below which the pointer is
/// taken to sit on the particle.
pub const NEAREST_BITS: u32 = 0x3c23_d70a;

/// Pattern of 1.
pub const ONE_BITS: u32 = 0x3f80_0000;

/// One particle: position, velocity and anchor.
#[derive(Clone, Copy, Debug, PartialEq, Eq, Structural)]
pub struct Particle {
    pub px: Single,
    pub py: Single,
    pub vx: Single,
    pub vy: Single,
    pub hx: Single,
    pub hy: Single,
}

/// The scale of a step of `dt` seconds: `dt`, or 0.1 where `dt` is above it,
/// times 60. A frame at sixty per second so has a scale near one.
pub open spec fn frame_scale(dt: Single) -> Single {
    let held = if dt.spec_gt(Single { bits: LONGEST_STEP_BITS }) {
        Single { bits: LONGEST_STEP_BITS }
    } else {
        dt
    };
    held.spec_times(Single { bits: BASE_RATE_BITS })
}

/// The square of the pointer's reach.
pub open spec fn reach_squared() -> Single {
    Single { bits: MOUSE_RADIUS_BITS }.spec_times(Single { bits: MOUSE_RADIUS_BITS })
}

/// `dx * dx + dy * dy`.
pub open spec fn squared_length(dx: Single, dy: Single) -> Single {
    dx.spec_times(dx).spec_plus(dy.spec_times(dy))
}

/// The pointer pushes a particle at this squared distance: it is within
/// reach, and not so near that a direction could not be told.
pub open spec fn pushes(distance_squared: Single) -> bool {
    distance_squared.spec_lt(reach_squared()) && distance_squared.spec_gt(
        Single { bits: NEAREST_BITS },
    )
}

/// The push on a particle at `(px, py)` from a pointer at `(mx, my)`, as x and
/// y. Within reach it points away from the pointer and fades linearly from
/// the full strength at the pointer to nothing at the rim. Everywhere else it
/// is exactly zero: out of reach, on the pointer, and where the distance is a
/// NaN.
pub open spec fn repulsion(px: Single, py: Single, mx: Single, my: Single) -> (Single, Single) {
    let dx = px.spec_minus(mx);
    let dy = py.spec_minus(my);
    let distance_squared = squared_length(dx, dy);
    if pushes(distance_squared) {
        let distance = distance_squared.spec_root();
        let force = one().spec_minus(distance.spec_over(Single { bits: MOUSE_RADIUS_BITS })).spec_times(
            Single { bits: MOUSE_STRENGTH_BITS },
        );
        (dx.spec_over(distance).spec_times(force), dy.spec_over(distance).spec_times(force))
    } else {
        (zero(), zero())
    }
}

/// The pull of the spring along one axis, from `at` toward `home`.
pub open spec fn spring(home: Single, at: Single) -> Single {
    home.spec_minus(at).spec_times(Single { bits: SPRING_STIFFNESS_BITS })
}

/// The velocity along one axis after a step: the old one plus the forces
/// times the scale, then damped.
pub open spec fn damped(velocity: Single, force: Single, scale: Single) -> Single {
    velocity.spec_plus(force.spec_times(scale)).spec_times(Single { bits: DAMPING_BITS })
}

/// The particle one step later. The scale enters twice, once where the
/// forces are added to the velocity and once where the position moves toward
/// `position + velocity`: that is the tuned motion, and it is kept.
pub open spec fn advance(p: Particle, scale: Single, mx: Single, my: Single) -> Particle {
    let push = repulsion(p.px, p.py, mx, my);
    let vx = damped(p.vx, spring(p.hx, p.px).spec_plus(push.0), scale);
    let vy = damped(p.vy, spring(p.hy, p.py).spec_plus(push.1), scale);
    Particle {
        px: blend(p.px, p.px.spec_plus(vx), scale),
        py: blend(p.py, p.py.spec_plus(vy), scale),
        vx,
        vy,
        hx: p.hx,
        hy: p.hy,
    }
}

/// The buffer of anchors of `count` particles in a field of the given size.
pub open spec fn seeded(count: nat, width: Single, height: Single) -> Seq<u32> {
    Seq::new(
        2 * count,
        |j: int|
            if j % 2 == 0 {
                home_x((j / 2) as nat, width).bits
            } else {
                home_y((j / 2) as nat, height).bits
            },
    )
}

/// What a particle field holds: the number of particles and the three
/// buffers, as bit patterns.
pub struct FieldView {
    pub count: nat,
    pub positions: Seq<u32>,
    pub velocities: Seq<u32>,
    pub home_positions: Seq<u32>,
}

impl FieldView {
    /// Each buffer has two slots per particle.
    pub open spec fn well_formed(self) -> bool {
        &&& self.positions.len() == 2 * self.count
        &&& self.velocities.len() == 2 * self.count
        &&& self.home_positions.len() == 2 * self.count
    }

    /// Particle `i`, read out of the three buffers.
    pub open spec fn particle(self, i: int) -> Particle {
        Particle {
            px: Single { bits: self.positions[2 * i] },
            py: Single { bits: self.positions[2 * i + 1] },
            vx: Single { bits: self.velocities[2 * i] },
            vy: Single { bits: self.velocities[2 * i + 1] },
            hx: Single { bits: self.home_positions[2 * i] },
            hy: Single { bits: self.home_positions[2 * i + 1] },
        }
    }

    /// The field after one step of `dt` seconds with the pointer at
    /// `(mx, my)`: every particle advanced by itself, the anchors as they
    /// were.
    pub open spec fn stepped(self, dt: Single, mx: Single, my: Single) -> FieldView {
        let scale = frame_scale(dt);
        FieldView {
            positions: Seq::new(
                self.positions.len(),
                |j: int|
                    {
                        let p = advance(self.particle(j / 2), scale, mx, my);
                        if j % 2 == 0 {
                            p.px.bits
                        } else {
                            p.py.bits
                        }
                    },
            ),
            velocities: Seq::new(
                self.velocities.len(),
                |j: int|
                    {
                        let p = advance(self.particle(j / 2), scale, mx, my);
                        if j % 2 == 0 {
                            p.vx.bits
                        } else {
                            p.vy.bits
                        }
                    },
            ),
            ..self
        }
    }

    /// The field with its anchors laid out anew for another size. Positions
    /// and velocities are as they were.
    pub open spec fn resized(self, width: Single, height: Single) -> FieldView {
        FieldView { home_positions: seeded(self.count, width, height), ..self }
    }
}

/// A new field: every particle at rest on its anchor.
pub open spec fn initial_field(count: nat, width: Single, height: Single) -> FieldView {
    FieldView {
        count,
        positions: seeded(count, width, height),
        velocities: Seq::new(2 * count, |j: int| 0u32),
        home_positions: seeded(count, width, height),
    }
}

/// A step leaves the number of particles, the length of each buffer and the
/// anchors as they were.
pub proof fn lemma_step_keeps_shape(v: FieldView, dt: Single, mx: Single, my: Single)
    requires
        v.well_formed(),
    ensures
        v.stepped(dt, mx, my).well_formed(),
        v.stepped(dt, mx, my).count == v.count,
        v.stepped(dt, mx, my).home_positions == v.home_positions,
{
}

/// A step moves each particle by itself: particle `i` afterwards is particle
/// `i` before, advanced, whatever the others do.
pub proof fn lemma_step_is_per_particle(v: FieldView, dt: Single, mx: Single, my: Single, i: int)
    requires
        v.well_formed(),
        0 <= i < v.count,
    ensures
        v.stepped(dt, mx, my).particle(i) == advance(v.particle(i), frame_scale(dt), mx, my),
{
    assert((2 * i) / 2 == i && (2 * i) % 2 == 0);
    assert((2 * i + 1) / 2 == i && (2 * i + 1) % 2 == 1);
}

/// A time step above a tenth of a second counts as a tenth of a second.
pub proof fn lemma_long_step_is_held(v: FieldView, dt: Single, mx: Single, my: Single)
    requires
        dt.spec_gt(Single { bits: LONGEST_STEP_BITS }),
    ensures
        frame_scale(dt) == frame_scale(Single { bits: LONGEST_STEP_BITS }),
        v.stepped(dt, mx, my) == v.stepped(Single { bits: LONGEST_STEP_BITS }, mx, my),
{
}

/// Seeding is a function of its arguments: two fields made from the same
/// count, width and height hold the same positions, velocities and anchors,
/// slot for slot.
pub proof fn lemma_seeding_is_determined(
    a: FieldView,
    b: FieldView,
    count: nat,
    width: Single,
    height: Single,
)
    requires
        a == initial_field(count, width, height),
        b == initial_field(count, width, height),
    ensures
        a.positions == b.positions,
        a.velocities == b.velocities,
        a.home_positions == b.home_positions,
{
}

/// In a new field every particle sits on its anchor and is at rest, and its
/// anchor is the hash of its own index.
pub proof fn lemma_initial_particle(count: nat, width: Single, height: Single, i: int)
    requires
        0 <= i < count,
    ensures
        initial_field(count, width, height).well_formed(),
        initial_field(count, width, height).particle(i) == (Particle {
            px: home_x(i as nat, width),
            py: home_y(i as nat, height),
            vx: zero(),
            vy: zero(),
            hx: home_x(i as nat, width),
            hy: home_y(i as nat, height),
        }),
{
    assert((2 * i) / 2 == i && (2 * i) % 2 == 0);
    assert((2 * i + 1) / 2 == i && (2 * i + 1) % 2 == 1);
}

/// Resizing moves no particle: positions and velocities are what they were,
/// and only the anchors are laid out anew.
pub proof fn lemma_resize_moves_nothing(v: FieldView, width: Single, height: Single)
    requires
        v.well_formed(),
    ensures
        v.resized(width, height).positions == v.positions,
        v.resized(width, height).velocities == v.velocities,
        v.resized(width, height).count == v.count,
        v.resized(width, height).home_positions == initial_field(
            v.count,
            width,
            height,
        ).home_positions,
        v.resized(width, height).well_formed(),
{
}

/// At the rim of the pointer's reach and beyond it, the push is exactly
/// zero: the velocity after the step is what the spring alone gives.
pub proof fn lemma_no_push_out_of_reach(p: Particle, scale: Single, mx: Single, my: Single)
    requires
        !squared_length(p.px.spec_minus(mx), p.py.spec_minus(my)).spec_lt(reach_squared()),
    ensures
        repulsion(p.px, p.py, mx, my) == (zero(), zero()),
        advance(p, scale, mx, my).vx == damped(p.vx, spring(p.hx, p.px).spec_plus(zero()), scale),
        advance(p, scale, mx, my).vy == damped(p.vy, spring(p.hy, p.py).spec_plus(zero()), scale),
{
}

/// With the pointer on the particle, or nearer than a tenth of a unit, the
/// push is exactly zero too: no direction is divided out of a vanishing
/// distance.
pub proof fn lemma_no_push_on_the_pointer(p: Particle, mx: Single, my: Single)
    requires
        !squared_length(p.px.spec_minus(mx), p.py.spec_minus(my)).spec_gt(
            Single { bits: NEAREST_BITS },
        ),
    ensures
        repulsion(p.px, p.py, mx, my) == (zero(), zero()),
{
}

/// Pattern of 22500, the square of the pointer's reach.
pub const REACH_SQUARED_BITS: u32 = 0x46af_c800;

/// The square of the reach is held exactly: the pointer pushes a particle
/// whose squared distance, as computed, lies above 0.01 and below 22500.
pub proof fn lemma_reach_squared_is_exact()
    ensures
        reach_squared() == (Single { bits: REACH_SQUARED_BITS }),
{
    reveal(Single::spec_times);
    let radius = Single { bits: MOUSE_RADIUS_BITS };
    let square = Single { bits: REACH_SQUARED_BITS };
    assert(radius.exponent_field() == 134 && radius.fraction_field() == 0x16_0000);
    assert(square.exponent_field() == 141 && square.fraction_field() == 0x2f_c800);
    let side = radius.scaled_magnitude();
    let area = square.scaled_magnitude();
    lemma_shift_splits(133, 133);
    lemma_shift_splits(117, 149);
    lemma_shift_splits(23, 117);
    lemma_small_shifts();
    assert(side * side == area * pow2(149)) by (nonlinear_arith)
        requires
            side == 0x96_0000 * pow2(133),
            area == 0xaf_c800 * pow2(140),
            pow2(266) == pow2(133) * pow2(133),
            pow2(266) == pow2(117) * pow2(149),
            pow2(140) == 0x80_0000 * pow2(117),
    ;
    lemma_rounded_cancels(area, 0, 149);
    lemma_held_value_stays(square);
}

/// One axis of a particle at rest on its anchor, with no push: the velocity
/// stays zero and the position stays where it is.
proof fn lemma_axis_at_rest(at: Single, scale: Single)
    requires
        at.is_finite(),
        at.bits != SIGN_BIT,
        scale.is_finite(),
    ensures
        damped(zero(), spring(at, at).spec_plus(zero()), scale) == zero(),
        blend(at, at.spec_plus(zero()), scale) == at,
{
    lemma_difference_of_equals(at);
    lemma_product_with_zero(Single { bits: SPRING_STIFFNESS_BITS });
    lemma_sum_of_zeros();
    lemma_product_with_zero(scale);
    let z = zero().spec_times(scale);
    lemma_plus_any_zero(zero(), z);
    lemma_product_with_zero(Single { bits: DAMPING_BITS });
    lemma_plus_any_zero(at, zero());
    lemma_plus_any_zero(at, z);
}

/// A particle at rest on its anchor stays there for as long as the pointer
/// does not push it: a step changes neither its position nor its velocity.
pub proof fn lemma_rest_on_anchor(p: Particle, scale: Single, mx: Single, my: Single)
    requires
        p.px == p.hx,
        p.py == p.hy,
        p.vx == zero(),
        p.vy == zero(),
        p.px.is_finite() && p.px.bits != SIGN_BIT,
        p.py.is_finite() && p.py.bits != SIGN_BIT,
        scale.is_finite(),
        !pushes(squared_length(p.px.spec_minus(mx), p.py.spec_minus(my))),
    ensures
        advance(p, scale, mx, my) == p,
{
    lemma_axis_at_rest(p.px, scale);
    lemma_axis_at_rest(p.py, scale);
}

/// A time step that is not negative has a finite scale, at most eight. So
/// has every step from nothing to a thousand seconds.
pub proof fn lemma_frame_scale_is_finite(dt: Single)
    requires
        zero().spec_le(dt),
    ensures
        frame_scale(dt).is_finite(),
        frame_scale(dt).spec_le(Single { bits: MOUSE_STRENGTH_BITS }),
        within(frame_scale(dt), 3),
{
    let longest = Single { bits: LONGEST_STEP_BITS };
    let rate = Single { bits: BASE_RATE_BITS };
    let eight = Single { bits: MOUSE_STRENGTH_BITS };
    let held = if dt.spec_gt(longest) {
        longest
    } else {
        dt
    };
    assert(longest.exponent_field() == 123 && longest.fraction_field() == 0x4c_cccd);
    assert(rate.exponent_field() == 132 && rate.fraction_field() == 0x70_0000);
    assert(eight.exponent_field() == 130 && eight.fraction_field() == 0);
    lemma_order_is_value_order(held, longest);
    lemma_order_is_value_order(zero(), held);
    lemma_zero_value(zero());
    lemma_shift_splits(122, 131);
    lemma_shift_splits(129, 149);
    lemma_shift_splits(25, 253);
    lemma_small_shifts();
    vstd::arithmetic::power2::lemma2_to64();
    let a = held.scaled_magnitude();
    let top = longest.scaled_magnitude();
    let b = rate.scaled_magnitude();
    assert(a <= top);
    assert(eight.scaled_magnitude() * pow2(149) >= a * b) by (nonlinear_arith)
        requires
            a <= top,
            top == 0xcc_cccd * pow2(122),
            b == 0xf0_0000 * pow2(131),
            eight.scaled_magnitude() == 0x80_0000 * pow2(129),
            pow2(253) == pow2(122) * pow2(131),
            pow2(278) == pow2(129) * pow2(149),
            pow2(278) == pow2(25) * pow2(253),
            pow2(25) == 0x200_0000,
            pow2(253) > 0,
            a >= 0,
            b >= 0,
    ;
    lemma_product_stays_below(held, rate, eight);
    lemma_shift_splits(23, 129);
    assert(eight.scaled_magnitude() == pow2(152));
}

/// How large the tuning constants are.
proof fn lemma_constants_within()
    ensures
        within(Single { bits: SPRING_STIFFNESS_BITS }, 0),
        within(Single { bits: DAMPING_BITS }, 0),
        within(Single { bits: MOUSE_STRENGTH_BITS }, 3),
        within(one(), 0),
        within(Single { bits: MOUSE_RADIUS_BITS }, 8),
        at_least(Single { bits: MOUSE_RADIUS_BITS }, 0),
        (Single { bits: NEAREST_BITS }).scaled_magnitude() >= pow2(141),
        (Single { bits: NEAREST_BITS }).is_finite(),
        !(Single { bits: NEAREST_BITS }).is_negative(),
        (Single { bits: REACH_SQUARED_BITS }).scaled_magnitude() < pow2(165),
        (Single { bits: REACH_SQUARED_BITS }).is_finite(),
        !(Single { bits: REACH_SQUARED_BITS }).is_negative(),
{
    let stiffness = Single { bits: SPRING_STIFFNESS_BITS };
    let damping = Single { bits: DAMPING_BITS };
    let strength = Single { bits: MOUSE_STRENGTH_BITS };
    let radius = Single { bits: MOUSE_RADIUS_BITS };
    let nearest = Single { bits: NEAREST_BITS };
    let reach = Single { bits: REACH_SQUARED_BITS };
    assert(stiffness.exponent_field() == 120 && stiffness.fraction_field() == 0x75_c28f);
    assert(damping.exponent_field() == 126 && damping.fraction_field() == 0x6b_851f);
    assert(strength.exponent_field() == 130 && strength.fraction_field() == 0);
    assert(one().exponent_field() == 127 && one().fraction_field() == 0);
    assert(radius.exponent_field() == 134 && radius.fraction_field() == 0x16_0000);
    assert(nearest.exponent_field() == 120 && nearest.fraction_field() == 0x23_d70a);
    assert(reach.exponent_field() == 141 && reach.fraction_field() == 0x2f_c800);
    lemma_small_shifts();
    lemma_shift_splits(24, 119);
    lemma_shift_splits(24, 125);
    lemma_shift_splits(23, 129);
    lemma_shift_splits(23, 126);
    lemma_shift_splits(24, 133);
    lemma_shift_splits(23, 133);
    lemma_shift_splits(23, 119);
    lemma_shift_splits(24, 140);
    vstd::arithmetic::power2::lemma2_to64();
    vstd::arithmetic::power2::lemma_pow2_strictly_increases(143, 149);
    vstd::arithmetic::power2::lemma_pow2_strictly_increases(149, 156);
    vstd::arithmetic::power2::lemma_pow2_strictly_increases(141, 142);
    vstd::arithmetic::power2::lemma_pow2_strictly_increases(164, 165);
    assert(stiffness.scaled_magnitude() <= pow2(143)) by (nonlinear_arith)
        requires
            stiffness.scaled_magnitude() == 0xf5_c28f * pow2(119),
            pow2(143) == 0x100_0000 * pow2(119),
    ;
    assert(damping.scaled_magnitude() <= pow2(149)) by (nonlinear_arith)
        requires
            damping.scaled_magnitude() == 0xeb_851f * pow2(125),
            pow2(149) == 0x100_0000 * pow2(125),
    ;
    assert(radius.scaled_magnitude() <= pow2(157) && radius.scaled_magnitude() >= pow2(156))
        by (nonlinear_arith)
        requires
            radius.scaled_magnitude() == 0x96_0000 * pow2(133),
            pow2(157) == 0x100_0000 * pow2(133),
            pow2(156) == 0x80_0000 * pow2(133),
    ;
    assert(nearest.scaled_magnitude() >= pow2(142)) by (nonlinear_arith)
        requires
            nearest.scaled_magnitude() == 0xa3_d70a * pow2(119),
            pow2(142) == 0x80_0000 * pow2(119),
    ;
    assert(reach.scaled_magnitude() <= pow2(164)) by (nonlinear_arith)
        requires
            reach.scaled_magnitude() == 0xaf_c800 * pow2(140),
            pow2(164) == 0x100_0000 * pow2(140),
    ;
}

/// Where the pointer pushes, it is near: both distances along the axes are
/// at most 2^8, and the squared distance lies between 2^-8 and 2^16.
proof fn lemma_pushing_pointer_is_near(dx: Single, dy: Single)
    requires
        pushes(squared_length(dx, dy)),
    ensures
        within(dx, 8),
        within(dy, 8),
        squared_length(dx, dy).is_finite(),
        !squared_length(dx, dy).is_negative(),
        squared_length(dx, dy).scaled_magnitude() <= pow2(165),
        squared_length(dx, dy).scaled_magnitude() >= pow2(141),
{
    let a = dx.spec_times(dx);
    let b = dy.spec_times(dy);
    let d2 = a.spec_plus(b);
    let reach = Single { bits: REACH_SQUARED_BITS };
    let nearest = Single { bits: NEAREST_BITS };
    lemma_reach_squared_is_exact();
    lemma_constants_within();
    assert(d2.spec_lt(reach) && nearest.spec_lt(d2));
    // A square is a NaN, positive infinity, or finite without a sign.
    assert(a.is_nan() || a == (Single { bits: 0x7f80_0000 }) || (dx.is_finite() && a.is_finite()
        && !a.is_negative())) by {
        reveal(Single::spec_times);
        if dx.is_finite() {
            lemma_product_shape(dx, dx);
        }
    }
    assert(b.is_nan() || b == (Single { bits: 0x7f80_0000 }) || (dy.is_finite() && b.is_finite()
        && !b.is_negative())) by {
        reveal(Single::spec_times);
        if dy.is_finite() {
            lemma_product_shape(dy, dy);
        }
    }
    assert(dx.is_finite() && dy.is_finite() && a.is_finite() && b.is_finite() && !a.is_negative()
        && !b.is_negative()) by {
        reveal(Single::spec_plus);
    }
    lemma_sum_shape(a, b);
    lemma_sum_stays_above(a, b, a);
    lemma_sum_stays_above(a, b, b);
    lemma_order_is_value_order(a, d2);
    lemma_order_is_value_order(b, d2);
    lemma_order_is_value_order(d2, reach);
    lemma_order_is_value_order(nearest, d2);
    lemma_power_value(16);
    lemma_shift_splits(157, 157);
    lemma_shift_splits(165, 149);
    vstd::arithmetic::power2::lemma_pow2_strictly_increases(141, 142);
    if dx.scaled_magnitude() > pow2(157) {
        assert(power(16).scaled_magnitude() * pow2(149) <= dx.scaled_magnitude()
            * dx.scaled_magnitude()) by (nonlinear_arith)
            requires
                power(16).scaled_magnitude() * pow2(149) == pow2(157) * pow2(157),
                dx.scaled_magnitude() > pow2(157),
        ;
        lemma_product_stays_above(dx, dx, power(16));
        assert(false);
    }
    if dy.scaled_magnitude() > pow2(157) {
        assert(power(16).scaled_magnitude() * pow2(149) <= dy.scaled_magnitude()
            * dy.scaled_magnitude()) by (nonlinear_arith)
            requires
                power(16).scaled_magnitude() * pow2(149) == pow2(157) * pow2(157),
                dy.scaled_magnitude() > pow2(157),
        ;
        lemma_product_stays_above(dy, dy, power(16));
        assert(false);
    }
}

/// The push is never large: along each axis it is finite and at most 2^24,
/// wherever the particle and the pointer are, at infinity and at a NaN too.
pub proof fn lemma_push_is_bounded(px: Single, py: Single, mx: Single, my: Single)
    ensures
        within(repulsion(px, py, mx, my).0, 24),
        within(repulsion(px, py, mx, my).1, 24),
{
    let dx = px.spec_minus(mx);
    let dy = py.spec_minus(my);
    let d2 = squared_length(dx, dy);
    lemma_zero_value(zero());
    lemma_pow2_pos(173);
    if pushes(d2) {
        lemma_pushing_pointer_is_near(dx, dy);
        lemma_constants_within();
        let radius = Single { bits: MOUSE_RADIUS_BITS };
        let strength = Single { bits: MOUSE_STRENGTH_BITS };
        let distance = d2.spec_root();
        lemma_root_within(d2, 8, 4);
        let part = distance.spec_over(radius);
        lemma_quotient_within(distance, radius, 8, 0);
        lemma_within_grows(one(), 0, 8);
        lemma_difference_within(one(), part, 8);
        let force = one().spec_minus(part).spec_times(strength);
        lemma_product_within(one().spec_minus(part), strength, 9, 3);
        lemma_quotient_within(dx, distance, 8, 4);
        lemma_quotient_within(dy, distance, 8, 4);
        lemma_product_within(dx.spec_over(distance), force, 12, 12);
        lemma_product_within(dy.spec_over(distance), force, 12, 12);
    }
}

/// One axis of a step stays finite: with position, velocity and anchor
/// within 2^115, a push within 2^24 and a scale within 2^3, the new velocity
/// is within 2^121 and the new position within 2^127.
proof fn lemma_axis_stays_finite(
    at: Single,
    velocity: Single,
    home: Single,
    push: Single,
    scale: Single,
)
    requires
        within(at, 115),
        within(velocity, 115),
        within(home, 115),
        within(push, 24),
        within(scale, 3),
    ensures
        within(damped(velocity, spring(home, at).spec_plus(push), scale), 121),
        within(
            blend(
                at,
                at.spec_plus(damped(velocity, spring(home, at).spec_plus(push), scale)),
                scale,
            ),
            127,
        ),
{
    lemma_constants_within();
    let stiffness = Single { bits: SPRING_STIFFNESS_BITS };
    let damping = Single { bits: DAMPING_BITS };
    lemma_difference_within(home, at, 115);
    lemma_product_within(home.spec_minus(at), stiffness, 116, 0);
    let pull = spring(home, at);
    lemma_within_grows(push, 24, 116);
    lemma_sum_within(pull, push, 116);
    let force = pull.spec_plus(push);
    lemma_product_within(force, scale, 117, 3);
    lemma_within_grows(velocity, 115, 120);
    lemma_sum_within(velocity, force.spec_times(scale), 120);
    lemma_product_within(velocity.spec_plus(force.spec_times(scale)), damping, 121, 0);
    let after = damped(velocity, force, scale);
    lemma_within_grows(at, 115, 121);
    lemma_sum_within(at, after, 121);
    lemma_within_grows(at, 115, 122);
    lemma_difference_within(at.spec_plus(after), at, 122);
    lemma_product_within(at.spec_plus(after).spec_minus(at), scale, 123, 3);
    lemma_within_grows(at, 115, 126);
    lemma_sum_within(at, at.spec_plus(after).spec_minus(at).spec_times(scale), 126);
}

/// A step leaves a particle finite. With position, velocity and anchor
/// within 2^115 and a scale within 2^3, as every time step that is not
/// negative gives it, the position and the velocity after the step are
/// finite, wherever the pointer is.
pub proof fn lemma_step_stays_finite(p: Particle, scale: Single, mx: Single, my: Single)
    requires
        within(p.px, 115) && within(p.py, 115),
        within(p.vx, 115) && within(p.vy, 115),
        within(p.hx, 115) && within(p.hy, 115),
        within(scale, 3),
    ensures
        within(advance(p, scale, mx, my).px, 127),
        within(advance(p, scale, mx, my).py, 127),
        within(advance(p, scale, mx, my).vx, 121),
        within(advance(p, scale, mx, my).vy, 121),
{
    lemma_push_is_bounded(p.px, p.py, mx, my);
    let push = repulsion(p.px, p.py, mx, my);
    lemma_axis_stays_finite(p.px, p.vx, p.hx, push.0, scale);
    lemma_axis_stays_finite(p.py, p.vy, p.hy, push.1, scale);
}

/// One update leaves every position and every velocity finite. This holds
/// of a field whose positions, velocities and anchors are within 2^115, for
/// every time step that is not negative and wherever the pointer is: far
/// away, on a particle, at infinity or at a NaN.
pub proof fn lemma_update_stays_finite(v: FieldView, dt: Single, mx: Single, my: Single)
    requires
        v.well_formed(),
        zero().spec_le(dt),
        forall|j: int|
            0 <= j < 2 * v.count ==> within(Single { bits: #[trigger] v.positions[j] }, 115)
                && within(Single { bits: v.velocities[j] }, 115) && within(
                Single { bits: v.home_positions[j] },
                115,
            ),
    ensures
        forall|j: int|
            0 <= j < 2 * v.count ==> (Single {
                bits: #[trigger] v.stepped(dt, mx, my).positions[j],
            }).is_finite() && (Single { bits: v.stepped(dt, mx, my).velocities[j] }).is_finite(),
{
    let w = v.stepped(dt, mx, my);
    let scale = frame_scale(dt);
    lemma_frame_scale_is_finite(dt);
    assert forall|j: int| 0 <= j < 2 * v.count implies (Single {
        bits: #[trigger] w.positions[j],
    }).is_finite() && (Single { bits: w.velocities[j] }).is_finite() by {
        let i = j / 2;
        let p = v.particle(i);
        assert(within(Single { bits: v.positions[2 * i] }, 115));
        assert(within(Single { bits: v.positions[2 * i + 1] }, 115));
        lemma_step_stays_finite(p, scale, mx, my);
        assert(j == 2 * i || j == 2 * i + 1);
    }
}

/// A new field lies inside its size: every particle between zero and the
/// width and between zero and the height, for a size that is finite and not
/// negative. Only a hash that is a NaN puts a particle elsewhere.
pub proof fn lemma_new_field_is_inside(count: nat, width: Single, height: Single, i: int)
    requires
        0 <= i < count,
        width.is_finite() && zero().spec_le(width),
        height.is_finite() && zero().spec_le(height),
    ensures
        hash(seed_x(i as nat)).is_nan() || (zero().spec_le(
            initial_field(count, width, height).particle(i).px,
        ) && initial_field(count, width, height).particle(i).px.spec_le(width)),
        hash(seed_y(i as nat)).is_nan() || (zero().spec_le(
            initial_field(count, width, height).particle(i).py,
        ) && initial_field(count, width, height).particle(i).py.spec_le(height)),
{
    lemma_initial_particle(count, width, height, i);
    lemma_hash_in_unit_range(seed_x(i as nat));
    lemma_hash_in_unit_range(seed_y(i as nat));
    if !hash(seed_x(i as nat)).is_nan() {
        lemma_anchor_in_field(hash(seed_x(i as nat)), width);
    }
    if !hash(seed_y(i as nat)).is_nan() {
        lemma_anchor_in_field(hash(seed_y(i as nat)), height);
    }
}

/// A new field under its springs alone does not move. With a size that is
/// finite and has no sign, hashes that are numbers, and a pointer that pushes
/// no particle, a step of any finite scale leaves positions and velocities
/// as they are.
pub proof fn lemma_new_field_rests(
    count: nat,
    width: Single,
    height: Single,
    dt: Single,
    mx: Single,
    my: Single,
)
    requires
        width.is_finite() && !width.is_negative(),
        height.is_finite() && !height.is_negative(),
        frame_scale(dt).is_finite(),
        forall|i: int|
            0 <= i < count ==> !hash(#[trigger] seed_x(i as nat)).is_nan() && !hash(
                seed_y(i as nat),
            ).is_nan(),
        forall|i: int|
            0 <= i < count ==> !pushes(
                squared_length(
                    (#[trigger] initial_field(count, width, height).particle(i)).px.spec_minus(mx),
                    initial_field(count, width, height).particle(i).py.spec_minus(my),
                ),
            ),
    ensures
        initial_field(count, width, height).stepped(dt, mx, my) == initial_field(
            count,
            width,
            height,
        ),
{
    let v = initial_field(count, width, height);
    let w = v.stepped(dt, mx, my);
    let scale = frame_scale(dt);
    assert forall|j: int| 0 <= j < 2 * count implies w.positions[j] == v.positions[j]
        && w.velocities[j] == v.velocities[j] by {
        let i = j / 2;
        let p = v.particle(i);
        lemma_initial_particle(count, width, height, i);
        assert(!hash(seed_x(i as nat)).is_nan());
        lemma_hash_in_unit_range(seed_x(i as nat));
        lemma_hash_in_unit_range(seed_y(i as nat));
        lemma_anchor_in_field(hash(seed_x(i as nat)), width);
        lemma_anchor_in_field(hash(seed_y(i as nat)), height);
        lemma_rest_on_anchor(p, scale, mx, my);
        assert(j == 2 * i || j == 2 * i + 1);
    }
    assert(w.positions =~= v.positions);
    assert(w.velocities =~= v.velocities);
}

/// The scale of a step of `dt` seconds.
pub fn frame_scale_of(dt: Single) -> (r: Single)
    ensures
        r == frame_scale(dt),
{
    let longest = Single { bits: LONGEST_STEP_BITS };
    let held = if dt.gt(longest) {
        longest
    } else {
        dt
    };
    times(held, Single { bits: BASE_RATE_BITS })
}

/// The push on a particle at `(px, py)` from a pointer at `(mx, my)`.
pub fn repel(px: Single, py: Single, mx: Single, my: Single) -> (r: (Single, Single))
    ensures
        r == repulsion(px, py, mx, my),
{
    let radius = Single { bits: MOUSE_RADIUS_BITS };
    let dx = minus(px, mx);
    let dy = minus(py, my);
    let distance_squared = plus(times(dx, dx), times(dy, dy));
    let reach = times(radius, radius);
    if distance_squared.lt(reach) && distance_squared.gt(Single { bits: NEAREST_BITS }) {
        let distance = root(distance_squared);
        let force = times(
            minus(Single { bits: ONE_BITS }, over(distance, radius)),
            Single { bits: MOUSE_STRENGTH_BITS },
        );
        (times(over(dx, distance), force), times(over(dy, distance), force))
    } else {
        (Single { bits: 0 }, Single { bits: 0 })
    }
}

/// Advances one particle by a step of the given scale.
pub fn advance_particle(p: Particle, scale: Single, mx: Single, my: Single) -> (r: Particle)
    ensures
        r == advance(p, scale, mx, my),
{
    let stiffness = Single { bits: SPRING_STIFFNESS_BITS };
    let damping = Single { bits: DAMPING_BITS };
    let spring_x = times(minus(p.hx, p.px), stiffness);
    let spring_y = times(minus(p.hy, p.py), stiffness);
    let push = repel(p.px, p.py, mx, my);
    let vx = times(plus(p.vx, times(plus(spring_x, push.0), scale)), damping);
    let vy = times(plus(p.vy, times(plus(spring_y, push.1), scale)), damping);
    Particle {
        px: lerp(p.px, plus(p.px, vx), scale),
        py: lerp(p.py, plus(p.py, vy), scale),
        vx,
        vy,
        hx: p.hx,
        hy: p.hy,
    }
}

/// A field of particles on springs.
pub struct AnimationEngine {
    positions: Vec<u32>,
    velocities: Vec<u32>,
    home_positions: Vec<u32>,
    count: usize,
}

impl View for AnimationEngine {
    type V = FieldView;

    closed spec fn view(&self) -> FieldView {
        FieldView {
            count: self.count as nat,
            positions: self.positions@,
            velocities: self.velocities@,
            home_positions: self.home_positions@,
        }
    }
}

impl AnimationEngine {
    /// The buffers keep the length they were made with.
    #[verifier::type_invariant]
    spec fn sized(self) -> bool {
        &&& self.positions@.len() == 2 * self.count
        &&& self.velocities@.len() == 2 * self.count
        &&& self.home_positions@.len() == 2 * self.count
    }

    /// A field of `count` particles, each at rest on its anchor. The anchors
    /// depend on nothing but the particle's index and the size of the field.
    pub fn new(count: usize, width: Single, height: Single) -> (engine: AnimationEngine)
        requires
            2 * count <= usize::MAX,
        ensures
            engine@ == initial_field(count as nat, width, height),
            engine@.well_formed(),
    {
        let mut positions: Vec<u32> = Vec::with_capacity(count * 2);
        let mut home_positions: Vec<u32> = Vec::with_capacity(count * 2);
        let mut velocities: Vec<u32> = Vec::with_capacity(count * 2);
        let ghost goal = seeded(count as nat, width, height);
        let mut i: usize = 0;
        while i < count
            invariant
                i <= count,
                2 * count <= usize::MAX,
                goal == seeded(count as nat, width, height),
                positions@.len() == 2 * i,
                home_positions@.len() == 2 * i,
                velocities@.len() == 2 * i,
                forall|j: int| 0 <= j < 2 * i ==> positions@[j] == goal[j],
                forall|j: int| 0 <= j < 2 * i ==> home_positions@[j] == goal[j],
                forall|j: int| 0 <= j < 2 * i ==> velocities@[j] == 0u32,
            decreases count - i,
        {
            let home = home_of(i, width, height);
            positions.push(home.0.bits);
            positions.push(home.1.bits);
            home_positions.push(home.0.bits);
            home_positions.push(home.1.bits);
            velocities.push(0);
            velocities.push(0);
            i = i + 1;
        }
        let engine = AnimationEngine { positions, velocities, home_positions, count };
        proof {
            let want = initial_field(count as nat, width, height);
            assert(engine@.positions =~= want.positions);
            assert(engine@.home_positions =~= want.home_positions);
            assert(engine@.velocities =~= want.velocities);
        }
        engine
    }

    /// Advances every particle by one step of `dt` seconds with the pointer
    /// at `(mouse_x, mouse_y)`.
    pub fn update(&mut self, dt: Single, mouse_x: Single, mouse_y: Single)
        ensures
            final(self)@ == old(self)@.stepped(dt, mouse_x, mouse_y),
            final(self)@.well_formed(),
    {
        proof {
            use_type_invariant(&*self);
        }
        let scale = frame_scale_of(dt);
        let ghost before = self@;
        let ghost goal = before.stepped(dt, mouse_x, mouse_y);
        let count = self.count;
        assert(2 * count <= usize::MAX) by {
            assert(self.positions.len() == 2 * count);
        }
        let mut i: usize = 0;
        while i < count
            invariant
                i <= count,
                count == self.count,
                2 * count <= usize::MAX,
                scale == frame_scale(dt),
                before.well_formed(),
                before.count == count,
                goal == before.stepped(dt, mouse_x, mouse_y),
                self.positions@.len() == 2 * count,
                self.velocities@.len() == 2 * count,
                self.home_positions@ == before.home_positions,
                forall|j: int| 0 <= j < 2 * i ==> self.positions@[j] == goal.positions[j],
                forall|j: int| 0 <= j < 2 * i ==> self.velocities@[j] == goal.velocities[j],
                forall|j: int| 2 * i <= j < 2 * count ==> self.positions@[j] == before.positions[j],
                forall|j: int| 2 * i <= j < 2 * count ==> self.velocities@[j] == before.velocities[j],
            decreases count - i,
        {
            let ix = i * 2;
            let iy = ix + 1;
            let p = Particle {
                px: Single { bits: self.positions[ix] },
                py: Single { bits: self.positions[iy] },
                vx: Single { bits: self.velocities[ix] },
                vy: Single { bits: self.velocities[iy] },
                hx: Single { bits: self.home_positions[ix] },
                hy: Single { bits: self.home_positions[iy] },
            };
            assert(p == before.particle(i as int));
            let q = advance_particle(p, scale, mouse_x, mouse_y);
            self.velocities[ix] = q.vx.bits;
            self.velocities[iy] = q.vy.bits;
            self.positions[ix] = q.px.bits;
            self.positions[iy] = q.py.bits;
            i = i + 1;
        }
        proof {
            assert(self@.positions =~= goal.positions);
            assert(self@.velocities =~= goal.velocities);
        }
    }

    /// Lays the anchors out anew for a field of another size. No particle
    /// moves: each drifts to its new anchor over the steps that follow.
    pub fn resize(&mut self, width: Single, height: Single)
        ensures
            final(self)@ == old(self)@.resized(width, height),
            final(self)@.well_formed(),
    {
        proof {
            use_type_invariant(&*self);
        }
        let ghost before = self@;
        let ghost goal = seeded(before.count, width, height);
        let count = self.count;
        assert(2 * count <= usize::MAX) by {
            assert(self.positions.len() == 2 * count);
        }
        let mut i: usize = 0;
        while i < count
            invariant
                i <= count,
                count == self.count,
                2 * count <= usize::MAX,
                before.count == count,
                goal == seeded(before.count, width, height),
                self.positions@ == before.positions,
                self.velocities@ == before.velocities,
                self.positions@.len() == 2 * count,
                self.velocities@.len() == 2 * count,
                self.home_positions@.len() == 2 * count,
                forall|j: int| 0 <= j < 2 * i ==> self.home_positions@[j] == goal[j],
            decreases count - i,
        {
            let ix = i * 2;
            let iy = ix + 1;
            let home = home_of(i, width, height);
            self.home_positions[ix] = home.0.bits;
            self.home_positions[iy] = home.1.bits;
            i = i + 1;
        }
        proof {
            assert(self@.home_positions =~= goal);
        }
    }

    /// The positions, x before y for each particle. The buffer is the
    /// engine's own and keeps its place and length for as long as the engine
    /// lives.
    pub fn positions_ptr(&self) -> (r: &[u32])
        ensures
            r@ == self@.positions,
            r@.len() == 2 * self@.count,
    {
        proof {
            use_type_invariant(self);
        }
        self.positions.as_slice()
    }

    /// The velocities, laid out as the positions are.
    pub fn velocities_ptr(&self) -> (r: &[u32])
        ensures
            r@ == self@.velocities,
            r@.len() == 2 * self@.count,
    {
        proof {
            use_type_invariant(self);
        }
        self.velocities.as_slice()
    }

    /// The number of particles.
    pub fn len(&self) -> (r: usize)
        ensures
            r == self@.count,
            self@.well_formed(),
    {
        proof {
            use_type_invariant(self);
        }
        self.count
    }
}

} // verus!
