//! Addition and subtraction.
//!
//! The sum of two finite numbers is the exact sum of their values, rounded
//! once to the format. A difference is the sum with the negated number.

use vstd::prelude::*;
use vstd::arithmetic::power2::{
    lemma_pow2_pos, lemma_pow2_strictly_increases, lemma_pow2_unfold, pow2,
};
use crate::rounding::{
    lemma_packed_is_one, lemma_rounded_by_parts, pack, pattern_of, round_quotient, rounded, signed,
};
use crate::single::{Single, INFINITY_BITS, QUIET_NAN_BITS, SIGN_BIT};
use crate::value::lemma_shift_splits;
use crate::whole::lemma_small_shifts;

verus! {

/// The absolute value of `i`.
pub open spec fn distance_from_zero(i: int) -> nat {
    if i < 0 {
        (-i) as nat
    } else {
        i as nat
    }
}

impl Single {
    /// `-self`: the same pattern with the other sign, also for a zero, an
    /// infinity and a NaN.
    pub open spec fn negated(self) -> Single {
        if self.bits >= SIGN_BIT {
            Single { bits: (self.bits - SIGN_BIT) as u32 }
        } else {
            Single { bits: (self.bits + SIGN_BIT) as u32 }
        }
    }

    /// `self + rhs`, rounded to nearest, ties to even. A sum that is exactly
    /// zero is positive zero, unless both terms are negative zero. The sum of
    /// the two infinities is a NaN, and so is every sum with a NaN.
    #[verifier::opaque]
    pub open spec fn spec_plus(self, rhs: Single) -> Single {
        if self.is_nan() || rhs.is_nan() {
            Single { bits: QUIET_NAN_BITS }
        } else if self.is_infinite() {
            if rhs.is_infinite() && self.is_negative() != rhs.is_negative() {
                Single { bits: QUIET_NAN_BITS }
            } else {
                self
            }
        } else if rhs.is_infinite() {
            rhs
        } else {
            finite_sum(self, rhs)
        }
    }

    /// `self - rhs`, rounded: the sum of `self` and `-rhs`.
    pub open spec fn spec_minus(self, rhs: Single) -> Single {
        self.spec_plus(rhs.negated())
    }
}

/// 2^`j` as a machine number.
fn power_of_two(j: u32) -> (p: u128)
    requires
        j <= 64,
    ensures
        p == pow2(j as nat),
        1 <= p <= 0x1_0000_0000_0000_0000,
{
    proof {
        vstd::arithmetic::power2::lemma2_to64();
    }
    let mut p: u128 = 1;
    let mut i: u32 = 0;
    while i < j
        invariant
            i <= j <= 64,
            p == pow2(i as nat),
            pow2(64) == 0x1_0000_0000_0000_0000,
            1 <= p <= pow2(64),
        decreases j - i,
    {
        proof {
            lemma_pow2_unfold((i + 1) as nat);
            if i + 1 < 64 {
                lemma_pow2_strictly_increases((i + 1) as nat, 64);
            }
        }
        p = p * 2;
        i = i + 1;
    }
    p
}

/// A term more than sixty-four binary places below the other leaves the
/// other as the rounded sum: it lies far inside half a step of the format,
/// on either side.
proof fn lemma_far_term_vanishes(sig: nat, e: nat, small: nat, down: bool)
    requires
        0x80_0000 <= sig < 0x100_0000,
        e >= 2,
        4 * small < pow2(e),
    ensures
        rounded(
            if down {
                (sig * pow2(e) - small) as nat
            } else {
                sig * pow2(e) + small
            },
            0,
        ) == sig * pow2(e),
        down ==> sig * pow2(e) > small,
{
    lemma_small_shifts();
    let step = pow2(e);
    let half = pow2((e - 1) as nat);
    lemma_pow2_pos(e);
    lemma_pow2_pos((e - 1) as nat);
    lemma_pow2_unfold(e);
    let big = sig * step;
    assert(big >= step) by (nonlinear_arith)
        requires
            big == sig * step,
            sig >= 1,
            step > 0,
    ;
    let n: nat = if down {
        (big - small) as nat
    } else {
        big + small
    };
    assert(n * pow2(0) == n) by (nonlinear_arith)
        requires
            pow2(0) == 1,
    ;
    if !down || small == 0 {
        lemma_rounded_by_parts(n, 0, 0, sig, e, if down {
            0
        } else {
            small
        });
        assert(round_quotient(sig, if down {
            0
        } else {
            small
        }, step) == sig);
        assert(sig * pow2((e + 0 - 0) as nat) == big);
    } else if sig > 0x80_0000 {
        let q = (sig - 1) as nat;
        let r = (step - small) as nat;
        assert(n == q * step + r) by (nonlinear_arith)
            requires
                n == sig * step - small,
                q == sig - 1,
                r == step - small,
        ;
        lemma_rounded_by_parts(n, 0, 0, q, e, r);
        assert(round_quotient(q, r, step) == sig);
    } else {
        let q: nat = 0xff_ffff;
        let r = (half - small) as nat;
        assert(n == q * half + r && big == 0x100_0000 * half) by (nonlinear_arith)
            requires
                n == sig * step - small,
                big == sig * step,
                sig == 0x80_0000,
                step == 2 * half,
                q == 0xff_ffff,
                r == half - small,
        ;
        lemma_rounded_by_parts(n, 0, 0, q, (e - 1) as nat, r);
        assert(round_quotient(q, r, half) == 0x100_0000);
    }
}

/// `-a`.
pub fn negate(a: Single) -> (r: Single)
    ensures
        r == a.negated(),
        r.magnitude() == a.magnitude(),
        r.is_negative() != a.is_negative(),
{
    if a.bits >= SIGN_BIT {
        Single { bits: a.bits - SIGN_BIT }
    } else {
        Single { bits: a.bits + SIGN_BIT }
    }
}

/// The sum of two finite numbers: see `spec_plus`.
pub open spec fn finite_sum(a: Single, b: Single) -> Single {
    let sum = a.scaled() + b.scaled();
    if sum == 0 {
        signed(a.is_negative() && b.is_negative(), 0)
    } else {
        signed(sum < 0, pattern_of(rounded(distance_from_zero(sum), 0)))
    }
}

/// Significand, shift and sign of a finite number.
pub(crate) fn parts_of(x: Single) -> (p: (u32, u32, bool))
    requires
        x.is_finite(),
    ensures
        p.0 == x.significand(),
        p.1 == x.shift(),
        p.2 == x.is_negative(),
        p.0 < 0x100_0000,
        p.1 <= 253,
        p.1 > 0 ==> p.0 >= 0x80_0000,
{
    let negative = x.bits >= SIGN_BIT;
    let m: u32 = if negative {
        x.bits - SIGN_BIT
    } else {
        x.bits
    };
    let e: u32 = m / 0x80_0000;
    if e == 0 {
        (m % 0x80_0000, 0, negative)
    } else {
        (m % 0x80_0000 + 0x80_0000, e - 1, negative)
    }
}

/// Where one term lies more than sixty-four binary places above the other,
/// the sum is that term.
proof fn lemma_far_sum(hi: Single, lo: Single)
    requires
        hi.is_finite(),
        lo.is_finite(),
        hi.shift() > lo.shift() + 64,
    ensures
        finite_sum(hi, lo) == hi,
        finite_sum(lo, hi) == hi,
{
    let big = hi.scaled_magnitude();
    let small = lo.scaled_magnitude();
    let e = hi.shift();
    let gap = (e - lo.shift()) as nat;
    let unit = pow2(lo.shift());
    let sig_hi = hi.significand();
    let sig_lo = lo.significand();
    lemma_small_shifts();
    lemma_pow2_pos(lo.shift());
    lemma_shift_splits(lo.shift() + 24, (gap - 24) as nat);
    lemma_shift_splits(lo.shift(), 24);
    lemma_pow2_strictly_increases(2, (gap - 24) as nat);
    vstd::arithmetic::power2::lemma2_to64();
    assert(4 * small < pow2(e)) by (nonlinear_arith)
        requires
            small == sig_lo * unit,
            sig_lo < 0x100_0000,
            pow2(e) == pow2(lo.shift() + 24) * pow2((gap - 24) as nat),
            pow2(lo.shift() + 24) == unit * 0x100_0000,
            pow2((gap - 24) as nat) > 4,
            unit > 0,
    ;
    let down = hi.is_negative() != lo.is_negative();
    lemma_far_term_vanishes(sig_hi, e, small, down);
    lemma_pow2_pos(e);
    assert(big > 0) by (nonlinear_arith)
        requires
            big == sig_hi * pow2(e),
            sig_hi >= 0x80_0000,
            pow2(e) > 0,
    ;
    let sum = hi.scaled() + lo.scaled();
    assert(sum != 0 && (sum < 0) == hi.is_negative());
    assert(distance_from_zero(sum) == (if down {
        (big - small) as nat
    } else {
        big + small
    }));
    let m: u32 = hi.magnitude() as u32;
    assert((Single { bits: m }).scaled_magnitude() == big);
    if e < 253 {
        lemma_pow2_strictly_increases(e, 253);
    }
    assert(big < crate::rounding::overflow_threshold()) by (nonlinear_arith)
        requires
            big == sig_hi * pow2(e),
            sig_hi < 0x100_0000,
            0 < pow2(e) <= pow2(253),
            crate::rounding::overflow_threshold() == 0x100_0000 * pow2(253),
    ;
    lemma_packed_is_one(m, big);
    assert(signed(hi.is_negative(), m) == hi);
}

/// The exact sum of two terms that share the unit `2^shift`, as a sign and
/// a whole number of units.
proof fn lemma_near_sum(
    hi: Single,
    lo: Single,
    wide: nat,
    negative: bool,
    n: nat,
)
    requires
        hi.is_finite(),
        lo.is_finite(),
        hi.shift() >= lo.shift(),
        wide == hi.significand() * pow2((hi.shift() - lo.shift()) as nat),
        hi.is_negative() == lo.is_negative() ==> negative == hi.is_negative() && n == wide
            + lo.significand(),
        hi.is_negative() != lo.is_negative() && wide > lo.significand() ==> negative
            == hi.is_negative() && n == wide - lo.significand(),
        hi.is_negative() != lo.is_negative() && wide < lo.significand() ==> negative
            == lo.is_negative() && n == lo.significand() - wide,
        hi.is_negative() != lo.is_negative() && wide == lo.significand() ==> n == 0,
    ensures
        distance_from_zero(hi.scaled() + lo.scaled()) == n * pow2(lo.shift()),
        hi.scaled() + lo.scaled() == 0 <==> n == 0,
        n != 0 ==> (hi.scaled() + lo.scaled() < 0) == negative,
{
    let unit = pow2(lo.shift()) as int;
    let low = lo.significand() as int;
    let gap = (hi.shift() - lo.shift()) as nat;
    let w = wide as int;
    let k = n as int;
    lemma_pow2_pos(lo.shift());
    lemma_shift_splits(gap, lo.shift());
    assert(hi.scaled_magnitude() == w * unit) by (nonlinear_arith)
        requires
            hi.scaled_magnitude() == hi.significand() * pow2(hi.shift()),
            pow2(hi.shift()) == pow2(gap) * unit,
            w == hi.significand() * pow2(gap),
    ;
    let sum = hi.scaled() + lo.scaled();
    if hi.is_negative() == lo.is_negative() {
        assert(sum == (if negative {
            -(k * unit)
        } else {
            k * unit
        })) by (nonlinear_arith)
            requires
                sum == (if negative {
                    -(w * unit) - low * unit
                } else {
                    w * unit + low * unit
                }),
                k == w + low,
        ;
    } else if w > low {
        assert(sum == (if negative {
            -(k * unit)
        } else {
            k * unit
        })) by (nonlinear_arith)
            requires
                sum == (if negative {
                    -(w * unit) + low * unit
                } else {
                    w * unit - low * unit
                }),
                k == w - low,
        ;
    } else if w < low {
        assert(sum == (if negative {
            -(k * unit)
        } else {
            k * unit
        })) by (nonlinear_arith)
            requires
                sum == (if negative {
                    w * unit - low * unit
                } else {
                    -(w * unit) + low * unit
                }),
                k == low - w,
        ;
    } else {
        assert(sum == 0 && k * unit == 0) by (nonlinear_arith)
            requires
                sum == w * unit - low * unit || sum == -(w * unit) + low * unit,
                w == low,
                k == 0,
        ;
    }
    assert(distance_from_zero(sum) == k * unit && (sum == 0 <==> k == 0) && (k != 0 ==> (sum < 0)
        == negative)) by (nonlinear_arith)
        requires
            sum == (if negative {
                -(k * unit)
            } else {
                k * unit
            }) || (sum == 0 && k == 0),
            unit > 0,
            k >= 0,
    ;
}

/// The sum of two finite numbers, the first of which has no smaller
/// exponent than the second.
fn plus_ordered(hi: Single, lo: Single) -> (r: Single)
    requires
        hi.is_finite(),
        lo.is_finite(),
        hi.shift() >= lo.shift(),
    ensures
        r == finite_sum(hi, lo),
        r == finite_sum(lo, hi),
{
    let (sig_hi, shift_hi, hi_negative) = parts_of(hi);
    let (sig_lo, shift_lo, lo_negative) = parts_of(lo);
    let gap = shift_hi - shift_lo;
    if gap > 64 {
        proof {
            lemma_far_sum(hi, lo);
        }
        return hi;
    }
    let scale = power_of_two(gap);
    assert(sig_hi * scale < 0x100_0000 * 0x1_0000_0000_0000_0000) by (nonlinear_arith)
        requires
            sig_hi < 0x100_0000,
            scale <= 0x1_0000_0000_0000_0000,
    ;
    let wide: u128 = (sig_hi as u128) * scale;
    let low: u128 = sig_lo as u128;
    let (negative, n): (bool, u128) = if hi_negative == lo_negative {
        (hi_negative, wide + low)
    } else if wide > low {
        (hi_negative, wide - low)
    } else if wide < low {
        (lo_negative, low - wide)
    } else {
        (false, 0)
    };
    proof {
        lemma_near_sum(hi, lo, wide as nat, negative, n as nat);
    }
    if n == 0 {
        return if hi_negative && lo_negative {
            Single { bits: SIGN_BIT }
        } else {
            Single { bits: 0 }
        };
    }
    let m = pack(n, shift_lo as i32);
    proof {
        lemma_packed_is_one(m, rounded(distance_from_zero(hi.scaled() + lo.scaled()), 0));
    }
    if negative {
        Single { bits: SIGN_BIT + m }
    } else {
        Single { bits: m }
    }
}

/// `a + b`.
pub fn plus(a: Single, b: Single) -> (r: Single)
    ensures
        r == a.spec_plus(b),
{
    reveal(Single::spec_plus);
    let a_negative = a.bits >= SIGN_BIT;
    let b_negative = b.bits >= SIGN_BIT;
    let ma: u32 = if a_negative {
        a.bits - SIGN_BIT
    } else {
        a.bits
    };
    let mb: u32 = if b_negative {
        b.bits - SIGN_BIT
    } else {
        b.bits
    };
    if ma > INFINITY_BITS || mb > INFINITY_BITS {
        return Single { bits: QUIET_NAN_BITS };
    }
    if ma == INFINITY_BITS {
        if mb == INFINITY_BITS && a_negative != b_negative {
            return Single { bits: QUIET_NAN_BITS };
        }
        return a;
    }
    if mb == INFINITY_BITS {
        return b;
    }
    if ma / 0x80_0000 >= mb / 0x80_0000 {
        plus_ordered(a, b)
    } else {
        plus_ordered(b, a)
    }
}

/// `a - b`, as the sum of `a` and `-b`.
pub fn minus(a: Single, b: Single) -> (r: Single)
    ensures
        r == a.spec_minus(b),
{
    plus(a, negate(b))
}

} // verus!
