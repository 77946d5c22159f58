//! Multiplication.
//!
//! The product of two finite numbers is the exact product of their values,
//! rounded once to the format.

use vstd::prelude::*;
use vstd::arithmetic::power2::pow2;
use crate::rounding::{
    lemma_rounded_cancels, pack, pattern_of, lemma_packed_is_one, rounded, signed,
};
use crate::single::{Single, INFINITY_BITS, QUIET_NAN_BITS, SIGN_BIT};
use crate::value::lemma_shift_splits;

verus! {

impl Single {
    /// `self * rhs`, rounded to nearest, ties to even. The sign is negative
    /// where exactly one factor has the sign bit set. An infinity times zero
    /// is a NaN, and so is every product with a NaN.
    #[verifier::opaque]
    pub open spec fn spec_times(self, rhs: Single) -> Single {
        let negative = self.is_negative() != rhs.is_negative();
        if self.is_nan() || rhs.is_nan() {
            Single { bits: QUIET_NAN_BITS }
        } else if self.is_infinite() || rhs.is_infinite() {
            if self.is_zero() || rhs.is_zero() {
                Single { bits: QUIET_NAN_BITS }
            } else {
                signed(negative, INFINITY_BITS)
            }
        } else {
            signed(
                negative,
                pattern_of(rounded(self.scaled_magnitude() * rhs.scaled_magnitude(), 149)),
            )
        }
    }
}

/// `a * b`.
pub fn times(a: Single, b: Single) -> (r: Single)
    ensures
        r == a.spec_times(b),
{
    reveal(Single::spec_times);
    let a_negative = a.bits >= SIGN_BIT;
    let b_negative = b.bits >= SIGN_BIT;
    let ma: u32 = if a_negative {
        a.bits - SIGN_BIT
    } else {
        a.bits
    };
    let mb: u32 = if b_negative {
        b.bits - SIGN_BIT
    } else {
        b.bits
    };
    let negative = a_negative != b_negative;
    if ma > INFINITY_BITS || mb > INFINITY_BITS {
        return Single { bits: QUIET_NAN_BITS };
    }
    if ma == INFINITY_BITS || mb == INFINITY_BITS {
        if ma == 0 || mb == 0 {
            return Single { bits: QUIET_NAN_BITS };
        }
        return if negative {
            Single { bits: SIGN_BIT + INFINITY_BITS }
        } else {
            Single { bits: INFINITY_BITS }
        };
    }
    let ea: u32 = ma / 0x80_0000;
    let eb: u32 = mb / 0x80_0000;
    let sa: u32 = if ea == 0 {
        ma % 0x80_0000
    } else {
        ma % 0x80_0000 + 0x80_0000
    };
    let sb: u32 = if eb == 0 {
        mb % 0x80_0000
    } else {
        mb % 0x80_0000 + 0x80_0000
    };
    let shift_a: u32 = if ea == 0 {
        0
    } else {
        ea - 1
    };
    let shift_b: u32 = if eb == 0 {
        0
    } else {
        eb - 1
    };
    assert(sa * sb < 0x100_0000 * 0x100_0000) by (nonlinear_arith)
        requires
            sa < 0x100_0000,
            sb < 0x100_0000,
    ;
    let n: u128 = (sa as u128) * (sb as u128);
    let t: i32 = (shift_a + shift_b) as i32 - 149;
    let m = pack(n, t);
    proof {
        let up = (shift_a + shift_b) as nat;
        let exact = a.scaled_magnitude() * b.scaled_magnitude();
        lemma_shift_splits(shift_a as nat, shift_b as nat);
        assert(exact == n * pow2(up)) by (nonlinear_arith)
            requires
                exact == (sa * pow2(shift_a as nat)) * (sb * pow2(shift_b as nat)),
                n == sa * sb,
                pow2(up) == pow2(shift_a as nat) * pow2(shift_b as nat),
        ;
        if t >= 0 {
            lemma_shift_splits(t as nat, 149);
            assert(exact == (n * pow2(t as nat)) * pow2(149)) by (nonlinear_arith)
                requires
                    exact == n * pow2(up),
                    pow2(up) == pow2(t as nat) * pow2(149),
            ;
            lemma_rounded_cancels((n * pow2(t as nat)) as nat, 0, 149);
        } else {
            lemma_rounded_cancels(n as nat, (-t) as nat, up);
        }
        lemma_packed_is_one(m, rounded(exact, 149));
    }
    if negative {
        Single { bits: SIGN_BIT + m }
    } else {
        Single { bits: m }
    }
}

} // verus!
