//! What a finite single-precision pattern stands for.
//!
//! Every finite number of the format is a whole multiple of 2^-149, the
//! smallest subnormal. Its exact value is stated here as that multiple, an
//! integer, and the order of the patterns is proved to be the order of these
//! values.

use vstd::prelude::*;
use vstd::arithmetic::power2::{
    lemma_pow2_adds, lemma_pow2_pos, lemma_pow2_strictly_increases, lemma_pow2_unfold, pow2,
};
use crate::single::Single;

verus! {

impl Single {
    /// The eight exponent bits.
    pub open spec fn exponent_field(self) -> nat {
        self.magnitude() / 0x80_0000
    }

    /// The twenty-three fraction bits.
    pub open spec fn fraction_field(self) -> nat {
        self.magnitude() % 0x80_0000
    }

    /// The significand as a whole number: the fraction bits, below the hidden
    /// bit where the number is normal.
    pub open spec fn significand(self) -> nat {
        if self.exponent_field() == 0 {
            self.fraction_field()
        } else {
            0x80_0000 + self.fraction_field()
        }
    }

    /// How many binary places the significand of a finite number is shifted
    /// up from the unit 2^-149. Subnormals and the lowest normal binade share
    /// the shift 0.
    pub open spec fn shift(self) -> nat {
        if self.exponent_field() == 0 {
            0
        } else {
            (self.exponent_field() - 1) as nat
        }
    }

    /// The absolute value of a finite number, in units of 2^-149.
    pub open spec fn scaled_magnitude(self) -> nat {
        self.significand() * pow2(self.shift())
    }

    /// The value of a finite number, in units of 2^-149.
    pub open spec fn scaled(self) -> int {
        if self.is_negative() {
            -(self.scaled_magnitude() as int)
        } else {
            self.scaled_magnitude() as int
        }
    }
}

/// Of two finite numbers, the one with the smaller pattern below the sign bit
/// has the smaller absolute value.
pub proof fn lemma_magnitude_orders_values(a: Single, b: Single)
    requires
        a.is_finite(),
        b.is_finite(),
        a.magnitude() < b.magnitude(),
    ensures
        a.scaled_magnitude() < b.scaled_magnitude(),
{
    let sa = a.significand() as int;
    let sb = b.significand() as int;
    let pa = pow2(a.shift()) as int;
    let pb = pow2(b.shift()) as int;
    lemma_pow2_pos(a.shift());
    lemma_pow2_pos(b.shift());
    if a.shift() == b.shift() {
        assert(sa < sb);
        assert(sa * pa < sb * pb) by (nonlinear_arith)
            requires
                sa < sb,
                pa == pb,
                pa > 0,
        ;
    } else {
        assert(a.shift() < b.shift());
        assert(sb >= 0x80_0000);
        assert(sa < 0x100_0000);
        lemma_pow2_unfold((a.shift() + 1) as nat);
        let pn = pow2((a.shift() + 1) as nat) as int;
        assert(pn == 2 * pa);
        if a.shift() + 1 < b.shift() {
            lemma_pow2_strictly_increases((a.shift() + 1) as nat, b.shift());
        }
        assert(pn <= pb);
        assert(sa * pa < sb * pb) by (nonlinear_arith)
            requires
                0 <= sa < 0x100_0000,
                sb >= 0x80_0000,
                pa > 0,
                2 * pa <= pb,
        ;
    }
}

/// Only the two zeros have the value zero.
pub proof fn lemma_zero_value(a: Single)
    requires
        a.is_finite(),
    ensures
        a.scaled_magnitude() == 0 <==> a.is_zero(),
{
    lemma_pow2_pos(a.shift());
    let s = a.significand() as int;
    let p = pow2(a.shift()) as int;
    if a.is_zero() {
        assert(s == 0);
        assert(s * p == 0) by (nonlinear_arith)
            requires
                s == 0,
        ;
    } else {
        assert(s > 0);
        assert(s * p > 0) by (nonlinear_arith)
            requires
                s > 0,
                p > 0,
        ;
    }
}

/// The numeric order is the order of the values: for finite `a` and `b`,
/// `a < b` holds exactly where the value of `a` is below that of `b`, and the
/// two are the same number exactly where their values are equal.
pub proof fn lemma_order_is_value_order(a: Single, b: Single)
    requires
        a.is_finite(),
        b.is_finite(),
    ensures
        a.spec_lt(b) <==> a.scaled() < b.scaled(),
        a.spec_le(b) <==> a.scaled() <= b.scaled(),
        a.spec_same_number(b) <==> a.scaled() == b.scaled(),
{
    lemma_zero_value(a);
    lemma_zero_value(b);
    if a.magnitude() < b.magnitude() {
        lemma_magnitude_orders_values(a, b);
    } else if b.magnitude() < a.magnitude() {
        lemma_magnitude_orders_values(b, a);
    }
}

/// A finite number that is not negative is known by its value.
pub proof fn lemma_value_names_pattern(a: Single, b: Single)
    requires
        a.is_finite(),
        b.is_finite(),
        !a.is_negative(),
        !b.is_negative(),
        a.scaled_magnitude() == b.scaled_magnitude(),
    ensures
        a == b,
{
    if a.magnitude() < b.magnitude() {
        lemma_magnitude_orders_values(a, b);
    } else if b.magnitude() < a.magnitude() {
        lemma_magnitude_orders_values(b, a);
    }
}

/// `2^(i + j)` as a product, for the proofs that move a significand between
/// exponents.
pub proof fn lemma_shift_splits(i: nat, j: nat)
    ensures
        pow2(i + j) == pow2(i) * pow2(j),
        pow2(i) > 0,
        pow2(j) > 0,
{
    lemma_pow2_adds(i, j);
    lemma_pow2_pos(i);
    lemma_pow2_pos(j);
}

} // verus!
