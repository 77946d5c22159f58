//! Division.
//!
//! The quotient of two finite numbers is the exact quotient of their values,
//! rounded once to the format.

use vstd::prelude::*;
use vstd::arithmetic::div_mod::{lemma_fundamental_div_mod, lemma_fundamental_div_mod_converse};
use vstd::arithmetic::power2::{lemma_pow2_adds, lemma_pow2_pos, lemma_pow2_unfold, pow2};
use crate::rounding::lemma_spacing_of_normalized;
use crate::rounding::{
    lemma_packed_is_one, lemma_rounded_by_parts, pack, pattern_of, round_quotient, rounded_shifted,
    rounds_up, signed,
};
use crate::single::{Single, INFINITY_BITS, QUIET_NAN_BITS, SIGN_BIT};
use crate::sum::parts_of;
use crate::whole::{lemma_exponent_below, lemma_small_shifts, spacing};

verus! {

/// The exact value `num / den`, in units of 2^-149, rounded to the grid of
/// the format, as a whole number of units.
pub open spec fn rounded_ratio(num: nat, den: nat) -> nat {
    let u = spacing(num / den);
    round_quotient(num / (den * u), num % (den * u), den * u) * u
}

impl Single {
    /// `self / rhs`, rounded to nearest, ties to even. The sign is negative
    /// where exactly one of the two has the sign bit set. A number that is
    /// not zero, divided by zero, is an infinity. Zero by zero, infinity by
    /// infinity and every quotient with a NaN are a NaN.
    #[verifier::opaque]
    pub open spec fn spec_over(self, rhs: Single) -> Single {
        let negative = self.is_negative() != rhs.is_negative();
        if self.is_nan() || rhs.is_nan() {
            Single { bits: QUIET_NAN_BITS }
        } else if self.is_infinite() {
            if rhs.is_infinite() {
                Single { bits: QUIET_NAN_BITS }
            } else {
                signed(negative, INFINITY_BITS)
            }
        } else if rhs.is_infinite() {
            signed(negative, 0)
        } else if rhs.is_zero() {
            if self.is_zero() {
                Single { bits: QUIET_NAN_BITS }
            } else {
                signed(negative, INFINITY_BITS)
            }
        } else if self.is_zero() {
            signed(negative, 0)
        } else {
            signed(
                negative,
                pattern_of(rounded_ratio(self.scaled_magnitude() * pow2(149), rhs.scaled_magnitude())),
            )
        }
    }
}

/// Rounding a quotient by parts. Let `num = q * (den * 2^j) + rest` with
/// `rest` below `den * 2^j`. If `q` has twenty-four bits, or if it has fewer
/// and `j` is zero, `num / den` rounds to the rounded `q` times `2^j`.
pub proof fn lemma_ratio_by_parts(num: nat, den: nat, q: nat, j: nat, rest: nat)
    requires
        den > 0,
        num == q * (den * pow2(j)) + rest,
        rest < den * pow2(j),
        q < 0x100_0000,
        q >= 0x80_0000 || j == 0,
    ensures
        rounded_ratio(num, den) == round_quotient(q, rest, den * pow2(j)) * pow2(j),
{
    lemma_small_shifts();
    let pj = pow2(j);
    lemma_pow2_pos(j);
    let low = rest / den;
    lemma_fundamental_div_mod(rest as int, den as int);
    assert(low < pj) by (nonlinear_arith)
        requires
            rest == den * low + rest % den,
            rest % den >= 0,
            rest < den * pj,
            den > 0,
    ;
    assert(num == (q * pj + low) * den + rest % den) by (nonlinear_arith)
        requires
            num == q * (den * pj) + rest,
            rest == den * low + rest % den,
    ;
    lemma_fundamental_div_mod_converse(
        num as int,
        den as int,
        (q * pj + low) as int,
        (rest % den) as int,
    );
    if q >= 0x80_0000 {
        lemma_spacing_of_normalized(q, j, low);
    } else {
        assert(q * pj + low == q) by (nonlinear_arith)
            requires
                pj == 1,
                low < pj,
        ;
        assert(spacing(q) == 1);
    }
    assert(spacing(num / den) == pj);
    let step = den * pj;
    assert(step > 0) by (nonlinear_arith)
        requires
            step == den * pj,
            den > 0,
            pj > 0,
    ;
    lemma_fundamental_div_mod_converse(num as int, step as int, q as int, rest as int);
}

/// Takes `n` apart at a binary place that is at least `least`: twenty-four
/// bits above the place, or fewer where the place is `least` itself.
pub proof fn lemma_parts(n: nat, least: nat) -> (p: (nat, nat, nat))
    ensures
        n == p.0 * pow2(p.1) + p.2,
        p.2 < pow2(p.1),
        p.0 < 0x100_0000,
        p.1 >= least,
        p.0 >= 0x80_0000 || p.1 == least,
    decreases n,
{
    let base = pow2(least);
    lemma_pow2_pos(least);
    if n < 0x100_0000 * base {
        lemma_fundamental_div_mod(n as int, base as int);
        let q = n / base;
        assert(q < 0x100_0000) by (nonlinear_arith)
            requires
                n == base * q + n % base,
                n % base >= 0,
                n < 0x100_0000 * base,
                base > 0,
        ;
        assert(n == q * base + n % base) by (nonlinear_arith)
            requires
                n == base * q + n % base,
        ;
        (q, least, n % base)
    } else {
        let (q, d, r) = lemma_parts(n / 2, least);
        lemma_pow2_unfold(d + 1);
        lemma_pow2_pos(d);
        let pd = pow2(d);
        assert(n == q * (2 * pd) + (2 * r + n % 2)) by (nonlinear_arith)
            requires
                n == 2 * (n / 2) + n % 2,
                n / 2 == q * pd + r,
        ;
        if d == least && q < 0x80_0000 {
            assert(false) by (nonlinear_arith)
                requires
                    n / 2 == q * pd + r,
                    r < pd,
                    q < 0x80_0000,
                    pd == base,
                    n >= 0x100_0000 * base,
                    n == 2 * (n / 2) + n % 2,
                    n % 2 < 2,
            ;
        }
        (q, d + 1, 2 * r + n % 2)
    }
}

/// Whether a remainder lies above, at or below half a step does not depend
/// on what follows its last kept bit: one bit that tells whether anything
/// follows stands for all of it.
proof fn lemma_sticky_bit_decides(q: nat, h: nat, m: nat, den: nat, rem: nat, c: nat)
    requires
        den > 0,
        c > 0,
        rem < den,
        h < 2 * m,
        m > 0,
    ensures
        rounds_up(q, (h * den + rem) * c, (den * (2 * m)) * c) == rounds_up(
            q,
            2 * h + (if rem > 0 {
                1nat
            } else {
                0nat
            }),
            4 * m,
        ),
{
    let s: nat = if rem > 0 {
        1
    } else {
        0
    };
    let left = (h * den + rem) * c;
    let step = (den * (2 * m)) * c;
    assert((2 * left > step) == (h > m || (h == m && rem > 0))) by (nonlinear_arith)
        requires
            left == (h * den + rem) * c,
            step == (den * (2 * m)) * c,
            rem < den,
            den > 0,
            c > 0,
    ;
    assert((2 * left == step) == (h == m && rem == 0)) by (nonlinear_arith)
        requires
            left == (h * den + rem) * c,
            step == (den * (2 * m)) * c,
            rem < den,
            den > 0,
            c > 0,
    ;
    assert((2 * (2 * h + s) > 4 * m) == (h > m || (h == m && s == 1)));
    assert((2 * (2 * h + s) == 4 * m) == (h == m && s == 0));
}

/// The quotient that the division computes rounds as the exact quotient
/// does. `qt` and `rem` are quotient and remainder of `sa * 2^64` by `sb`,
/// and `n2` is twice `qt`, plus one where a remainder is left.
proof fn lemma_quotient_rounds(
    sa: nat,
    sha: nat,
    sb: nat,
    shb: nat,
    qt: nat,
    rem: nat,
    n2: nat,
    t: int,
)
    requires
        1 <= sa < 0x100_0000,
        1 <= sb < 0x100_0000,
        sha <= 253,
        shb <= 253,
        sa * 0x1_0000_0000_0000_0000 == qt * sb + rem,
        rem < sb,
        n2 == 2 * qt + (if rem > 0 {
            1nat
        } else {
            0nat
        }),
        t == sha - shb + 84,
    ensures
        rounded_shifted(n2, t) == rounded_ratio((sa * pow2(sha)) * pow2(149), sb * pow2(shb)),
{
    lemma_small_shifts();
    vstd::arithmetic::power2::lemma2_to64();
    let a_: nat = if t >= 0 {
        t as nat
    } else {
        0
    };
    let k_: nat = if t >= 0 {
        0
    } else {
        (-t) as nat
    };
    let stick: nat = if rem > 0 {
        1
    } else {
        0
    };
    assert(qt >= 0x100_0000_0000) by (nonlinear_arith)
        requires
            sa * 0x1_0000_0000_0000_0000 == qt * sb + rem,
            rem < sb,
            sb < 0x100_0000,
            sa >= 1,
    ;
    let (q, d, low) = lemma_parts(n2, k_);
    let pd = pow2(d);
    lemma_pow2_pos(d);
    assert(pd > 4) by (nonlinear_arith)
        requires
            n2 == q * pd + low,
            low < pd,
            q < 0x100_0000,
            n2 >= 0x200_0000_0000,
    ;
    lemma_exponent_below(2, d);
    assert(n2 * pow2(0) == n2) by (nonlinear_arith)
        requires
            pow2(0) == 1,
    ;
    lemma_rounded_by_parts(n2, a_, k_, q, d, low);
    let j = (d + a_ - k_) as nat;
    assert(j == d + t);
    assert(rounded_shifted(n2, t) == round_quotient(q, low, pd) * pow2(j));
    // What is kept and what is dropped of the quotient itself.
    lemma_pow2_unfold(d);
    lemma_pow2_unfold((d - 1) as nat);
    let m = pow2((d - 2) as nat);
    lemma_pow2_pos((d - 2) as nat);
    assert(pd == 4 * m);
    let h = low / 2;
    let even = q * m;
    assert(q * (4 * m) == 4 * even) by (nonlinear_arith)
        requires
            even == q * m,
    ;
    assert(low % 2 == stick);
    assert(low == 2 * h + stick);
    assert(qt == q * (2 * m) + h) by (nonlinear_arith)
        requires
            n2 == q * (4 * m) + low,
            n2 == 2 * qt + stick,
            low == 2 * h + stick,
    ;
    assert(h < 2 * m);
    // The same parts in the exact quotient.
    let c = pow2(sha + 85);
    lemma_pow2_pos(sha + 85);
    lemma_pow2_adds(64, sha + 85);
    lemma_pow2_adds(sha, 149);
    assert(pow2(sha + 149) == 0x1_0000_0000_0000_0000 * c);
    let num = (sa * pow2(sha)) * pow2(149);
    let den = sb * pow2(shb);
    lemma_pow2_pos(shb);
    lemma_pow2_adds(shb, j);
    lemma_pow2_adds((d - 1) as nat, sha + 85);
    assert(shb + j == (d - 1) + (sha + 85));
    assert(pow2(shb) * pow2(j) == (2 * m) * c);
    let rest = (h * sb + rem) * c;
    let step = den * pow2(j);
    assert(step == (sb * (2 * m)) * c) by (nonlinear_arith)
        requires
            step == (sb * pow2(shb)) * pow2(j),
            pow2(shb) * pow2(j) == (2 * m) * c,
    ;
    assert(num == q * step + rest) by (nonlinear_arith)
        requires
            num == (sa * pow2(sha)) * pow2(149),
            pow2(sha) * pow2(149) == 0x1_0000_0000_0000_0000 * c,
            sa * 0x1_0000_0000_0000_0000 == qt * sb + rem,
            qt == q * (2 * m) + h,
            step == (sb * (2 * m)) * c,
            rest == (h * sb + rem) * c,
    ;
    assert(rest < step) by (nonlinear_arith)
        requires
            rest == (h * sb + rem) * c,
            step == (sb * (2 * m)) * c,
            h < 2 * m,
            rem < sb,
            c > 0,
    ;
    assert(den > 0) by (nonlinear_arith)
        requires
            den == sb * pow2(shb),
            sb >= 1,
            pow2(shb) > 0,
    ;
    lemma_ratio_by_parts(num, den, q, j, rest);
    lemma_sticky_bit_decides(q, h, m, sb, rem, c);
}

/// `a / b`.
pub fn over(a: Single, b: Single) -> (r: Single)
    ensures
        r == a.spec_over(b),
{
    reveal(Single::spec_over);
    let a_negative = a.bits >= SIGN_BIT;
    let b_negative = b.bits >= SIGN_BIT;
    let ma: u32 = if a_negative {
        a.bits - SIGN_BIT
    } else {
        a.bits
    };
    let mb: u32 = if b_negative {
        b.bits - SIGN_BIT
    } else {
        b.bits
    };
    let negative = a_negative != b_negative;
    let sign: u32 = if negative {
        SIGN_BIT
    } else {
        0
    };
    if ma > INFINITY_BITS || mb > INFINITY_BITS {
        return Single { bits: QUIET_NAN_BITS };
    }
    if ma == INFINITY_BITS {
        if mb == INFINITY_BITS {
            return Single { bits: QUIET_NAN_BITS };
        }
        return Single { bits: sign + INFINITY_BITS };
    }
    if mb == INFINITY_BITS {
        return Single { bits: sign };
    }
    if mb == 0 {
        if ma == 0 {
            return Single { bits: QUIET_NAN_BITS };
        }
        return Single { bits: sign + INFINITY_BITS };
    }
    if ma == 0 {
        return Single { bits: sign };
    }
    let (sa, shift_a, _) = parts_of(a);
    let (sb, shift_b, _) = parts_of(b);
    let wide: u128 = (sa as u128) * 0x1_0000_0000_0000_0000;
    let qt: u128 = wide / (sb as u128);
    let rem: u128 = wide % (sb as u128);
    proof {
        lemma_fundamental_div_mod(wide as int, sb as int);
        assert(qt <= wide) by (nonlinear_arith)
            requires
                wide == sb * qt + rem,
                sb >= 1,
                rem >= 0,
                qt >= 0,
        ;
        assert(wide == qt * sb + rem) by (nonlinear_arith)
            requires
                wide == sb * qt + rem,
        ;
    }
    let n2: u128 = if rem > 0 {
        2 * qt + 1
    } else {
        2 * qt
    };
    let t: i32 = shift_a as i32 - shift_b as i32 + 84;
    let m = pack(n2, t);
    proof {
        lemma_quotient_rounds(
            sa as nat,
            shift_a as nat,
            sb as nat,
            shift_b as nat,
            qt as nat,
            rem as nat,
            n2 as nat,
            t as int,
        );
        lemma_packed_is_one(
            m,
            rounded_ratio(a.scaled_magnitude() * pow2(149), b.scaled_magnitude()),
        );
    }
    Single { bits: sign + m }
}

} // verus!
