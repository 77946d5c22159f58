//! Rounding goes to a nearest neighbour.
//!
//! The exact value lies between two neighbouring numbers of the format, and
//! rounding picks one of the two. So no number of the format lies between the
//! exact value and the rounded one: what bounds the exact value from the
//! format bounds the rounded value too.

use vstd::prelude::*;
use vstd::arithmetic::div_mod::{lemma_div_denominator, lemma_fundamental_div_mod};
use vstd::arithmetic::power2::{
    lemma_pow2_adds, lemma_pow2_pos, lemma_pow2_strictly_increases, lemma_pow2_unfold, pow2,
};
use crate::quotient::{lemma_ratio_by_parts, rounded_ratio};
use crate::root::{lemma_root_floor, root_floor, rounded_root};
use crate::rounding::{
    lemma_packed_value, lemma_rounded_by_parts, overflow_threshold, packed, pattern_of,
    round_quotient, rounded,
};
use crate::single::{Single, INFINITY_BITS};
use crate::value::lemma_magnitude_orders_values;
use crate::whole::{lemma_small_shifts, spacing};

verus! {

/// The spacing at `m` is a power of two, and `m` counts fewer than 2^24
/// steps of it, at least 2^23 where the step is above one.
pub proof fn lemma_spacing_shape(m: nat) -> (j: nat)
    ensures
        spacing(m) == pow2(j),
        m / pow2(j) < 0x100_0000,
        j > 0 ==> m / pow2(j) >= 0x80_0000,
    decreases m,
{
    lemma_small_shifts();
    if m < 0x100_0000 {
        0
    } else {
        let i = lemma_spacing_shape(m / 2);
        lemma_pow2_unfold(i + 1);
        lemma_pow2_pos(i);
        lemma_div_denominator(m as int, 2, pow2(i) as int);
        assert(pow2(i + 1) == 2 * pow2(i));
        assert(m / pow2(i + 1) == (m / 2) / pow2(i));
        if i == 0 {
            assert((m / 2) / 1 == m / 2);
        }
        i + 1
    }
}

/// The grid on which `n / 2^k` is rounded: whole steps `q`, a step of
/// `2^j` units, and what is left over below a step.
pub struct Grid {
    pub q: nat,
    pub j: nat,
    pub r: nat,
}

/// Takes the exact value `n / 2^k` apart on the grid of the format.
pub proof fn lemma_grid(n: nat, k: nat) -> (g: Grid)
    ensures
        n == g.q * pow2(g.j + k) + g.r,
        g.r < pow2(g.j + k),
        g.q < 0x100_0000,
        g.j > 0 ==> g.q >= 0x80_0000,
        rounded(n, k) == round_quotient(g.q, g.r, pow2(g.j + k)) * pow2(g.j),
{
    lemma_small_shifts();
    let pk = pow2(k);
    lemma_pow2_pos(k);
    let m = n / pk;
    let j = lemma_spacing_shape(m);
    let pj = pow2(j);
    lemma_pow2_pos(j);
    lemma_pow2_adds(k, j);
    let step = pow2(j + k);
    assert(step == pk * pj);
    lemma_div_denominator(n as int, pk as int, pj as int);
    let q = n / step;
    assert(q == m / pj);
    let r = n % step;
    lemma_pow2_pos(j + k);
    lemma_fundamental_div_mod(n as int, step as int);
    assert(n == q * step + r) by (nonlinear_arith)
        requires
            n == step * q + r,
    ;
    assert(n * pow2(0) == n) by (nonlinear_arith)
        requires
            pow2(0) == 1,
    ;
    lemma_rounded_by_parts(n, 0, k, q, j + k, r);
    assert((j + k + 0 - k) as nat == j);
    Grid { q, j, r }
}

/// Rounding never more than doubles a value.
pub proof fn lemma_rounded_at_most_double(n: nat, k: nat)
    ensures
        rounded(n, k) * pow2(k) <= 2 * n,
{
    let g = lemma_grid(n, k);
    let step = pow2(g.j + k);
    lemma_pow2_adds(g.j, k);
    lemma_pow2_pos(k);
    lemma_pow2_pos(g.j);
    let up = round_quotient(g.q, g.r, step);
    assert(rounded(n, k) * pow2(k) <= 2 * n) by (nonlinear_arith)
        requires
            rounded(n, k) == up * pow2(g.j),
            step == pow2(g.j) * pow2(k),
            n == g.q * step + g.r,
            up == g.q || (up == g.q + 1 && 2 * g.r >= step),
            g.r >= 0,
            g.q >= 0,
            step > 0,
    ;
}

/// The pattern of `q` steps of `2^j` and its value.
proof fn lemma_step_pattern(q: nat, j: nat) -> (p: Single)
    requires
        q <= 0x100_0000,
        j == 0 || q >= 0x80_0000,
        j <= 253,
        j * 0x80_0000 + q < INFINITY_BITS,
    ensures
        p.bits == j * 0x80_0000 + q,
        p.is_finite(),
        !p.is_negative(),
        p.scaled_magnitude() == q * pow2(j),
{
    let p = Single { bits: (j * 0x80_0000 + q) as u32 };
    lemma_packed_value(q, j, p);
    p
}

/// Twenty-four bits on a grid coarser than 2^253 units are too large for
/// the format.
proof fn lemma_coarse_grid_is_out_of_range(q: nat, j: nat)
    requires
        q >= 0x80_0000,
        j > 253,
    ensures
        q * pow2(j) >= overflow_threshold(),
{
    lemma_pow2_unfold(254);
    if j > 254 {
        lemma_pow2_strictly_increases(254, j);
    }
    lemma_pow2_pos(253);
    assert(q * pow2(j) >= 0x100_0000 * pow2(253)) by (nonlinear_arith)
        requires
            q >= 0x80_0000,
            pow2(j) >= 2 * pow2(253),
            pow2(253) > 0,
    ;
}

/// No number of the format lies between two neighbours of the grid: what is
/// above the lower one is at least the upper one, and what is below the
/// upper one is at most the lower one.
pub proof fn lemma_between_neighbours(q: nat, j: nat, v: Single)
    requires
        q < 0x100_0000,
        j == 0 || q >= 0x80_0000,
        v.is_finite(),
    ensures
        v.scaled_magnitude() > q * pow2(j) ==> v.scaled_magnitude() >= (q + 1) * pow2(j),
        v.scaled_magnitude() < (q + 1) * pow2(j) ==> v.scaled_magnitude() <= q * pow2(j),
        v.scaled_magnitude() >= q * pow2(j) && j > 0 ==> j <= 253,
{
    crate::identities::lemma_held_value_stays(v);
    lemma_pow2_pos(j);
    if j > 253 {
        lemma_coarse_grid_is_out_of_range(q, j);
    } else {
        let below = lemma_step_pattern(q, j);
        if v.magnitude() < below.magnitude() {
            lemma_magnitude_orders_values(v, below);
        }
        if below.magnitude() < v.magnitude() {
            lemma_magnitude_orders_values(below, v);
        }
        if j * 0x80_0000 + q + 1 < INFINITY_BITS {
            let above = lemma_step_pattern(q + 1, j);
            if v.magnitude() < above.magnitude() {
                lemma_magnitude_orders_values(v, above);
            }
            if above.magnitude() < v.magnitude() {
                lemma_magnitude_orders_values(above, v);
            }
        } else {
            assert(v.magnitude() <= below.magnitude());
            lemma_pow2_pos(253);
            assert((q + 1) * pow2(j) == overflow_threshold());
        }
    }
}

/// A value on the grid has its pattern: a finite one that holds it, or that
/// of infinity.
pub proof fn lemma_grid_value_has_pattern(q: nat, j: nat)
    requires
        q <= 0x100_0000,
        j == 0 || q >= 0x80_0000,
    ensures
        packed(pattern_of(q * pow2(j)), q * pow2(j)),
{
    let value = q * pow2(j);
    lemma_pow2_pos(j);
    lemma_pow2_pos(253);
    if value < overflow_threshold() {
        if j > 253 {
            lemma_coarse_grid_is_out_of_range(q, j);
        }
        if j == 253 && q == 0x100_0000 {
            assert(false);
        }
        let p = lemma_step_pattern(q, j);
        assert(packed(p.bits, value));
    } else {
        assert(packed(INFINITY_BITS, value));
    }
}

/// Takes the exact quotient `num / den` apart on the grid of the format.
pub proof fn lemma_ratio_grid(num: nat, den: nat) -> (g: Grid)
    requires
        den > 0,
    ensures
        num == g.q * (den * pow2(g.j)) + g.r,
        g.r < den * pow2(g.j),
        g.q < 0x100_0000,
        g.j > 0 ==> g.q >= 0x80_0000,
        rounded_ratio(num, den) == round_quotient(g.q, g.r, den * pow2(g.j)) * pow2(g.j),
{
    let m = num / den;
    let j = lemma_spacing_shape(m);
    let pj = pow2(j);
    lemma_pow2_pos(j);
    let step = den * pj;
    assert(step > 0) by (nonlinear_arith)
        requires
            step == den * pj,
            den > 0,
            pj > 0,
    ;
    lemma_div_denominator(num as int, den as int, pj as int);
    let q = num / step;
    let r = num % step;
    lemma_fundamental_div_mod(num as int, step as int);
    assert(num == q * step + r) by (nonlinear_arith)
        requires
            num == step * q + r,
    ;
    lemma_ratio_by_parts(num, den, q, j, r);
    Grid { q, j, r }
}

/// A number of the format that is not below the exact quotient is not below
/// the rounded quotient.
pub proof fn lemma_ratio_stays_below(num: nat, den: nat, v: Single)
    requires
        den > 0,
        v.is_finite(),
        v.scaled_magnitude() * den >= num,
    ensures
        rounded_ratio(num, den) <= v.scaled_magnitude(),
        rounded_ratio(num, den) < overflow_threshold(),
        packed(pattern_of(rounded_ratio(num, den)), rounded_ratio(num, den)),
{
    let top = v.scaled_magnitude();
    let g = lemma_ratio_grid(num, den);
    let pj = pow2(g.j);
    lemma_pow2_pos(g.j);
    crate::identities::lemma_held_value_stays(v);
    lemma_between_neighbours(g.q, g.j, v);
    let up = round_quotient(g.q, g.r, den * pj);
    lemma_grid_value_has_pattern(up, g.j);
    if up == g.q {
        assert(g.q * pj <= top) by (nonlinear_arith)
            requires
                top * den >= num,
                num == g.q * (den * pj) + g.r,
                den > 0,
                g.r >= 0,
        ;
    } else {
        assert(top > g.q * pj) by (nonlinear_arith)
            requires
                top * den >= num,
                num == g.q * (den * pj) + g.r,
                den > 0,
                g.r > 0,
        ;
    }
}

/// A number of the format that is not above the exact quotient is not above
/// the rounded quotient.
pub proof fn lemma_ratio_stays_above(num: nat, den: nat, v: Single)
    requires
        den > 0,
        v.is_finite(),
        v.scaled_magnitude() * den <= num,
    ensures
        v.scaled_magnitude() <= rounded_ratio(num, den),
        packed(pattern_of(rounded_ratio(num, den)), rounded_ratio(num, den)),
{
    let low = v.scaled_magnitude();
    let g = lemma_ratio_grid(num, den);
    let pj = pow2(g.j);
    lemma_pow2_pos(g.j);
    lemma_between_neighbours(g.q, g.j, v);
    let up = round_quotient(g.q, g.r, den * pj);
    lemma_grid_value_has_pattern(up, g.j);
    assert(low < (g.q + 1) * pj) by (nonlinear_arith)
        requires
            low * den <= num,
            num == g.q * (den * pj) + g.r,
            g.r < den * pj,
            den > 0,
    ;
    assert(g.q * pj <= up * pj) by (nonlinear_arith)
        requires
            up >= g.q,
            pj > 0,
    ;
}

/// The two neighbours of the grid between which an exact root lies, and
/// which of them it is rounded to.
pub proof fn lemma_root_grid(w: nat) -> (g: Grid)
    ensures
        (g.q * pow2(g.j)) * (g.q * pow2(g.j)) <= w,
        w < ((g.q + 1) * pow2(g.j)) * ((g.q + 1) * pow2(g.j)),
        g.q < 0x100_0000,
        g.j > 0 ==> g.q >= 0x80_0000,
        rounded_root(w) == g.q * pow2(g.j) || rounded_root(w) == (g.q + 1) * pow2(g.j),
        rounded_root(w) == (g.q + 1) * pow2(g.j) ==> w > (g.q * pow2(g.j)) * (g.q * pow2(g.j)),
{
    lemma_root_floor(w);
    let s0 = root_floor(w);
    let j = lemma_spacing_shape(s0);
    let u = pow2(j);
    lemma_pow2_pos(j);
    let q = s0 / u;
    lemma_fundamental_div_mod(s0 as int, u as int);
    let lo = q * u;
    let hi = (q + 1) * u;
    assert(lo <= s0 < hi) by (nonlinear_arith)
        requires
            s0 == u * q + s0 % u,
            0 <= s0 % u < u,
            lo == q * u,
            hi == (q + 1) * u,
    ;
    assert(lo * lo <= s0 * s0) by (nonlinear_arith)
        requires
            lo <= s0,
            lo >= 0,
    ;
    assert((s0 + 1) * (s0 + 1) <= hi * hi) by (nonlinear_arith)
        requires
            s0 + 1 <= hi,
            s0 >= 0,
    ;
    let twice = (2 * q + 1) * u;
    assert(twice * twice > 4 * (lo * lo)) by (nonlinear_arith)
        requires
            twice == (2 * q + 1) * u,
            lo == q * u,
            u > 0,
            q >= 0,
    ;
    Grid { q, j, r: 0 }
}

/// A number of the format whose square is not below the exact square is not
/// below the rounded root.
pub proof fn lemma_root_stays_below(w: nat, v: Single)
    requires
        v.is_finite(),
        v.scaled_magnitude() * v.scaled_magnitude() >= w,
    ensures
        rounded_root(w) <= v.scaled_magnitude(),
        rounded_root(w) < overflow_threshold(),
        packed(pattern_of(rounded_root(w)), rounded_root(w)),
{
    let top = v.scaled_magnitude();
    let g = lemma_root_grid(w);
    let lo = g.q * pow2(g.j);
    let hi = (g.q + 1) * pow2(g.j);
    crate::identities::lemma_held_value_stays(v);
    lemma_between_neighbours(g.q, g.j, v);
    lemma_grid_value_has_pattern(g.q, g.j);
    lemma_grid_value_has_pattern(g.q + 1, g.j);
    if top < lo {
        assert(top * top < lo * lo) by (nonlinear_arith)
            requires
                0 <= top < lo,
        ;
    }
    if rounded_root(w) == hi && top <= lo {
        assert(top * top <= lo * lo) by (nonlinear_arith)
            requires
                0 <= top <= lo,
        ;
    }
}

/// A number of the format whose square is not above the exact square is not
/// above the rounded root.
pub proof fn lemma_root_stays_above(w: nat, v: Single)
    requires
        v.is_finite(),
        v.scaled_magnitude() * v.scaled_magnitude() <= w,
    ensures
        v.scaled_magnitude() <= rounded_root(w),
        packed(pattern_of(rounded_root(w)), rounded_root(w)),
{
    let low = v.scaled_magnitude();
    let g = lemma_root_grid(w);
    let lo = g.q * pow2(g.j);
    let hi = (g.q + 1) * pow2(g.j);
    lemma_between_neighbours(g.q, g.j, v);
    lemma_grid_value_has_pattern(g.q, g.j);
    lemma_grid_value_has_pattern(g.q + 1, g.j);
    if low >= hi {
        assert(low * low >= hi * hi) by (nonlinear_arith)
            requires
                low >= hi,
                hi >= 0,
        ;
    }
    lemma_pow2_pos(g.j);
    assert(lo <= hi) by (nonlinear_arith)
        requires
            lo == g.q * pow2(g.j),
            hi == (g.q + 1) * pow2(g.j),
            pow2(g.j) > 0,
    ;
}

/// Every rounded value has its pattern: a finite one that holds it, or that
/// of infinity.
pub proof fn lemma_rounded_has_pattern(n: nat, k: nat)
    ensures
        packed(pattern_of(rounded(n, k)), rounded(n, k)),
{
    let g = lemma_grid(n, k);
    let up = round_quotient(g.q, g.r, pow2(g.j + k));
    let value = rounded(n, k);
    lemma_pow2_pos(g.j);
    lemma_pow2_pos(253);
    if value < overflow_threshold() {
        if g.j > 253 {
            lemma_coarse_grid_is_out_of_range(g.q, g.j);
            assert(g.q * pow2(g.j) <= up * pow2(g.j)) by (nonlinear_arith)
                requires
                    up >= g.q,
                    pow2(g.j) > 0,
            ;
        }
        if g.j == 253 && up == 0x100_0000 {
            assert(false);
        }
        let p = lemma_step_pattern(up, g.j);
        assert(packed(p.bits, value));
    } else {
        assert(packed(INFINITY_BITS, value));
    }
}

/// A number of the format that is not below the exact value is not below
/// the rounded value.
pub proof fn lemma_rounded_stays_below(n: nat, k: nat, v: Single)
    requires
        v.is_finite(),
        v.scaled_magnitude() * pow2(k) >= n,
    ensures
        rounded(n, k) <= v.scaled_magnitude(),
        rounded(n, k) < overflow_threshold(),
{
    let top = v.scaled_magnitude();
    let g = lemma_grid(n, k);
    let pk = pow2(k);
    let pj = pow2(g.j);
    let step = pow2(g.j + k);
    lemma_pow2_adds(g.j, k);
    lemma_pow2_pos(k);
    lemma_pow2_pos(g.j);
    crate::identities::lemma_held_value_stays(v);
    assert(top < overflow_threshold());
    // The grid is not coarser than the format allows below its upper end.
    if g.j > 253 {
        lemma_coarse_grid_is_out_of_range(g.q, g.j);
        let whole = g.q * pj;
        assert(top * pk >= whole * pk) by (nonlinear_arith)
            requires
                top * pk >= n,
                n == g.q * step + g.r,
                step == pj * pk,
                whole == g.q * pj,
                g.r >= 0,
        ;
        assert(top >= whole) by (nonlinear_arith)
            requires
                top * pk >= whole * pk,
                pk > 0,
        ;
        assert(false);
    }
    let up = round_quotient(g.q, g.r, step);
    if up == g.q {
        assert(g.q * pj <= top) by (nonlinear_arith)
            requires
                top * pk >= n,
                n == g.q * step + g.r,
                step == pj * pk,
                pk > 0,
                g.r >= 0,
        ;
    } else {
        assert(g.r > 0);
        assert(top > g.q * pj) by (nonlinear_arith)
            requires
                top * pk >= n,
                n == g.q * step + g.r,
                step == pj * pk,
                pk > 0,
                g.r > 0,
        ;
        let below = lemma_step_pattern(g.q, g.j);
        if v.magnitude() <= below.magnitude() {
            if v.magnitude() < below.magnitude() {
                lemma_magnitude_orders_values(v, below);
            }
            assert(false);
        }
        // The next pattern up holds the rounded value.
        assert(below.bits + 1 < INFINITY_BITS || v.magnitude() >= INFINITY_BITS);
        let above = lemma_step_pattern(g.q + 1, g.j);
        if above.magnitude() < v.magnitude() {
            lemma_magnitude_orders_values(above, v);
        }
    }
}

/// A number of the format that is not above the exact value is not above
/// the rounded value.
pub proof fn lemma_rounded_stays_above(n: nat, k: nat, v: Single)
    requires
        v.is_finite(),
        v.scaled_magnitude() * pow2(k) <= n,
    ensures
        v.scaled_magnitude() <= rounded(n, k),
{
    let low = v.scaled_magnitude();
    let g = lemma_grid(n, k);
    let pk = pow2(k);
    let pj = pow2(g.j);
    let step = pow2(g.j + k);
    lemma_pow2_adds(g.j, k);
    lemma_pow2_pos(k);
    lemma_pow2_pos(g.j);
    crate::identities::lemma_held_value_stays(v);
    let up = round_quotient(g.q, g.r, step);
    if g.j > 253 {
        lemma_coarse_grid_is_out_of_range(g.q, g.j);
        assert(g.q * pj <= up * pj) by (nonlinear_arith)
            requires
                up >= g.q,
                pj > 0,
        ;
    } else if up == g.q + 1 {
        assert(low <= (g.q + 1) * pj) by (nonlinear_arith)
            requires
                low * pk <= n,
                n == g.q * step + g.r,
                g.r < step,
                step == pj * pk,
                pk > 0,
        ;
    } else {
        assert(low < (g.q + 1) * pj) by (nonlinear_arith)
            requires
                low * pk <= n,
                n == g.q * step + g.r,
                g.r < step,
                step == pj * pk,
                pk > 0,
        ;
        if g.j * 0x80_0000 + g.q + 1 < INFINITY_BITS {
            let above = lemma_step_pattern(g.q + 1, g.j);
            let below = lemma_step_pattern(g.q, g.j);
            if v.magnitude() >= above.magnitude() {
                if v.magnitude() > above.magnitude() {
                    lemma_magnitude_orders_values(above, v);
                }
                assert(false);
            }
            if v.magnitude() < below.magnitude() {
                lemma_magnitude_orders_values(v, below);
            }
        } else {
            let below = lemma_step_pattern(g.q, g.j);
            if v.magnitude() < below.magnitude() {
                lemma_magnitude_orders_values(v, below);
            }
        }
    }
}

} // verus!
