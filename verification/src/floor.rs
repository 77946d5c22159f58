//! The floor: the largest whole number that is not above a number.

use vstd::prelude::*;
use vstd::arithmetic::div_mod::{
    lemma_fundamental_div_mod, lemma_fundamental_div_mod_converse, lemma_mod_multiples_vanish,
};
use vstd::arithmetic::power2::{lemma_pow2_strictly_increases, lemma_pow2_unfold, pow2};
use crate::single::{Single, INFINITY_BITS, SIGN_BIT};
use crate::value::{lemma_magnitude_orders_values, lemma_shift_splits};
use crate::whole::{lemma_assembled_value, lemma_small_shifts};

verus! {

/// `r` is the largest whole number that is not above the finite `x`, and
/// has the sign of `x`: so the floor of a number between zero and one is
/// positive zero, and each zero is its own floor.
pub open spec fn holds_floor(r: Single, x: Single) -> bool {
    &&& r.is_finite()
    &&& r.is_negative() == x.is_negative()
    &&& r.scaled() == (x.scaled() / (pow2(149) as int)) * pow2(149)
}

impl Single {
    /// The largest whole number that is not above `self`. An infinity and a
    /// NaN are their own floor.
    pub open spec fn floored(self) -> Single {
        if self.is_finite() {
            choose|r: Single| holds_floor(r, self)
        } else {
            self
        }
    }
}

/// A finite number is known by its sign and its value.
proof fn lemma_floor_is_one(r: Single, x: Single)
    requires
        x.is_finite(),
        holds_floor(r, x),
    ensures
        r == x.floored(),
{
    let c = x.floored();
    assert(holds_floor(c, x));
    assert(r.scaled_magnitude() == c.scaled_magnitude());
    if r.magnitude() < c.magnitude() {
        lemma_magnitude_orders_values(r, c);
    } else if c.magnitude() < r.magnitude() {
        lemma_magnitude_orders_values(c, r);
    }
}

/// The number one is 2^149 units of 2^-149.
pub proof fn lemma_value_of_one()
    ensures
        (Single { bits: 0x3f80_0000 }).scaled_magnitude() == pow2(149),
        (Single { bits: 0xbf80_0000 }).scaled_magnitude() == pow2(149),
        pow2(149) > 0,
{
    lemma_small_shifts();
    lemma_shift_splits(23, 126);
    let a = Single { bits: 0x3f80_0000 };
    let b = Single { bits: 0xbf80_0000 };
    assert(a.exponent_field() == 127 && a.fraction_field() == 0);
    assert(b.exponent_field() == 127 && b.fraction_field() == 0);
}

/// With `s = q * d + r` and `r` below `d`, the floor of `s` to a multiple of
/// `d` is `q * d`.
proof fn lemma_floor_to_multiple(s: int, d: int, q: int, r: int)
    requires
        0 < d,
        0 <= r < d,
        s == q * d + r,
    ensures
        (s / d) * d == q * d,
{
    lemma_fundamental_div_mod_converse(s, d, q, r);
}

/// The floor of a number at or above 2^23 in absolute value is the number:
/// the format holds no fraction there.
proof fn lemma_floor_of_large(x: Single)
    requires
        x.is_finite(),
        x.exponent_field() >= 150,
    ensures
        holds_floor(x, x),
{
    let e = x.exponent_field();
    let sig = x.significand() as int;
    let d = pow2(149) as int;
    let p = pow2((e - 150) as nat) as int;
    lemma_shift_splits((e - 150) as nat, 149);
    assert(pow2(x.shift()) == p * d);
    let k = if x.is_negative() {
        -(sig * p)
    } else {
        sig * p
    };
    assert(x.scaled() == k * d + 0) by (nonlinear_arith)
        requires
            x.scaled() == (if x.is_negative() {
                -(sig * (p * d))
            } else {
                sig * (p * d)
            }),
            k == (if x.is_negative() {
                -(sig * p)
            } else {
                sig * p
            }),
    ;
    lemma_floor_to_multiple(x.scaled(), d, k, 0);
}

/// A number of at least one in absolute value whose pattern ends in zeros
/// below the whole part is whole, and so its own floor.
proof fn lemma_whole_in_binade(x: Single, unit: nat)
    requires
        127 <= x.exponent_field() <= 149,
        unit == pow2((150 - x.exponent_field()) as nat),
        x.magnitude() % unit == 0,
    ensures
        holds_floor(x, x),
{
    let e = x.exponent_field();
    let m = x.magnitude() as int;
    let sig = x.significand() as int;
    let u = unit as int;
    let p = pow2((e - 1) as nat) as int;
    let c = pow2((e - 127) as nat) as int;
    let d = pow2(149) as int;
    lemma_small_shifts();
    lemma_shift_splits((150 - e) as nat, (e - 1) as nat);
    lemma_shift_splits((150 - e) as nat, (e - 127) as nat);
    assert(m == u * ((e - 1) * c) + sig) by (nonlinear_arith)
        requires
            m == sig + (e - 1) * 0x80_0000,
            0x80_0000 == u * c,
    ;
    lemma_mod_multiples_vanish((e - 1) * c, sig, u);
    let base = sig / u;
    lemma_fundamental_div_mod(sig, u);
    let q = if x.is_negative() {
        -base
    } else {
        base
    };
    assert(d == u * p);
    assert(d > 0) by (nonlinear_arith)
        requires
            d == u * p,
            u > 0,
            p > 0,
    ;
    assert(x.scaled() == q * d + 0) by (nonlinear_arith)
        requires
            x.scaled() == (if x.is_negative() {
                -(sig * p)
            } else {
                sig * p
            }),
            q == (if x.is_negative() {
                -base
            } else {
                base
            }),
            sig == u * base,
            d == u * p,
    ;
    lemma_floor_to_multiple(x.scaled(), d, q, 0);
}

/// The floor of a number with a fraction, at least one in absolute value:
/// the pattern loses what lies below the whole part when the number is
/// positive, and moves up to the next whole pattern when it is negative.
proof fn lemma_floor_in_binade(x: Single, r: Single, unit: nat)
    requires
        127 <= x.exponent_field() <= 149,
        unit == pow2((150 - x.exponent_field()) as nat),
        x.magnitude() % unit != 0,
        r.is_negative() == x.is_negative(),
        !x.is_negative() ==> r.magnitude() == x.magnitude() - x.magnitude() % unit,
        x.is_negative() ==> r.magnitude() == x.magnitude() - x.magnitude() % unit + unit,
    ensures
        holds_floor(r, x),
{
    let e = x.exponent_field();
    let m = x.magnitude() as int;
    let sig = x.significand() as int;
    let low = m % (unit as int);
    let u = unit as int;
    let p = pow2((e - 1) as nat) as int;
    let c = pow2((e - 127) as nat) as int;
    let d = pow2(149) as int;
    lemma_small_shifts();
    lemma_shift_splits((150 - e) as nat, (e - 1) as nat);
    lemma_shift_splits((150 - e) as nat, (e - 127) as nat);
    assert(d == u * p);
    assert(0x80_0000 == u * c);
    // The pattern and the significand differ by a multiple of the unit.
    assert(m == sig + (e - 1) * 0x80_0000);
    assert(m == u * ((e - 1) * c) + sig) by (nonlinear_arith)
        requires
            m == sig + (e - 1) * 0x80_0000,
            0x80_0000 == u * c,
    ;
    lemma_mod_multiples_vanish((e - 1) * c, sig, u);
    assert(sig % u == low);
    let base = sig / u;
    lemma_fundamental_div_mod(sig, u);
    assert(sig == u * base + low);
    assert(c <= base < 2 * c) by (nonlinear_arith)
        requires
            sig == u * base + low,
            0 <= low < u,
            u * c <= sig < 2 * (u * c),
    ;
    if !x.is_negative() {
        let kept = sig - low;
        assert(0x80_0000 <= kept <= 0x100_0000) by (nonlinear_arith)
            requires
                kept == u * base,
                c <= base < 2 * c,
                0x80_0000 == u * c,
                u > 0,
        ;
        lemma_assembled_value(kept as nat, e, r);
        assert(x.scaled() == base * d + low * p && 0 <= low * p < d && r.scaled() == base * d)
            by (nonlinear_arith)
            requires
                x.scaled() == sig * p,
                r.scaled() == kept * p,
                kept == u * base,
                sig == u * base + low,
                d == u * p,
                0 < low < u,
                p > 0,
        ;
        lemma_floor_to_multiple(x.scaled(), d, base, low * p);
    } else {
        let kept = sig - low + u;
        assert(kept == u * (base + 1)) by (nonlinear_arith)
            requires
                kept == u * base + u,
        ;
        assert(0x80_0000 <= kept <= 0x100_0000) by (nonlinear_arith)
            requires
                kept == u * (base + 1),
                c <= base < 2 * c,
                0x80_0000 == u * c,
                u > 0,
        ;
        lemma_assembled_value(kept as nat, e, r);
        assert(x.scaled() == (-base - 1) * d + (u - low) * p && 0 <= (u - low) * p < d && r.scaled()
            == (-base - 1) * d) by (nonlinear_arith)
            requires
                x.scaled() == -(sig * p),
                r.scaled() == -(kept * p),
                kept == u * (base + 1),
                sig == u * base + low,
                d == u * p,
                0 < low < u,
                p > 0,
        ;
        lemma_floor_to_multiple(x.scaled(), d, -base - 1, (u - low) * p);
    }
}

/// Every finite number has its floor.
pub proof fn lemma_floor_exists(x: Single)
    requires
        x.is_finite(),
    ensures
        holds_floor(x.floored(), x),
{
    lemma_value_of_one();
    lemma_small_shifts();
    let m = x.magnitude();
    let e = x.exponent_field();
    if e >= 150 {
        lemma_floor_of_large(x);
    } else if e < 127 {
        let r = if m == 0 {
            x
        } else if x.is_negative() {
            Single { bits: 0xbf80_0000 }
        } else {
            Single { bits: 0 }
        };
        let d = pow2(149) as int;
        let s = x.scaled();
        lemma_magnitude_orders_values(x, Single { bits: 0x3f80_0000 });
        crate::value::lemma_zero_value(x);
        crate::value::lemma_zero_value(r);
        if m == 0 {
            lemma_floor_to_multiple(s, d, 0, 0);
        } else if x.is_negative() {
            lemma_floor_to_multiple(s, d, -1, s + d);
        } else {
            lemma_floor_to_multiple(s, d, 0, s);
        }
        assert(holds_floor(r, x));
    } else {
        let j = (150 - e) as nat;
        let unit = pow2(j);
        vstd::arithmetic::power2::lemma_pow2_pos(j);
        if j < 23 {
            lemma_pow2_strictly_increases(j, 23);
        }
        let low = m % unit;
        if low == 0 {
            lemma_whole_in_binade(x, unit);
        } else {
            lemma_fundamental_div_mod(m as int, unit as int);
            assert(low <= m) by (nonlinear_arith)
                requires
                    m == unit * (m / unit) + low,
                    m / unit >= 0,
                    unit > 0,
            ;
            let r = if x.is_negative() {
                Single { bits: (SIGN_BIT + (m - low + unit)) as u32 }
            } else {
                Single { bits: (m - low) as u32 }
            };
            lemma_floor_in_binade(x, r, unit);
        }
    }
}

/// A finite number lies at or above its floor and less than one above it.
pub proof fn lemma_floor_is_near(x: Single)
    requires
        x.is_finite(),
    ensures
        x.floored().is_finite(),
        0 <= x.scaled() - x.floored().scaled() < pow2(149),
{
    lemma_floor_exists(x);
    lemma_value_of_one();
    lemma_fundamental_div_mod(x.scaled(), pow2(149) as int);
    let d = pow2(149) as int;
    let q = x.scaled() / d;
    assert(q * d == d * q) by (nonlinear_arith);
}

impl Single {
    /// The largest whole number that is not above `self`.
    pub fn floor(self) -> (r: Single)
        ensures
            r == self.floored(),
            self.is_finite() ==> holds_floor(r, self),
    {
        let negative = self.bits >= SIGN_BIT;
        let m: u32 = if negative {
            self.bits - SIGN_BIT
        } else {
            self.bits
        };
        if m >= INFINITY_BITS {
            return self;
        }
        proof {
            lemma_value_of_one();
            lemma_small_shifts();
        }
        if m >= 0x4b00_0000 {
            proof {
                lemma_floor_of_large(self);
                lemma_floor_is_one(self, self);
            }
            return self;
        }
        if m < 0x3f80_0000 {
            let r = if m == 0 {
                self
            } else if negative {
                Single { bits: 0xbf80_0000 }
            } else {
                Single { bits: 0 }
            };
            proof {
                let d = pow2(149) as int;
                let s = self.scaled();
                lemma_magnitude_orders_values(self, Single { bits: 0x3f80_0000 });
                crate::value::lemma_zero_value(self);
                crate::value::lemma_zero_value(r);
                if m == 0 {
                    lemma_floor_to_multiple(s, d, 0, 0);
                } else if negative {
                    lemma_floor_to_multiple(s, d, -1, s + d);
                } else {
                    lemma_floor_to_multiple(s, d, 0, s);
                }
                lemma_floor_is_one(r, self);
            }
            return r;
        }
        let e: u32 = m / 0x80_0000;
        let mut unit: u32 = 2;
        let mut k: u32 = 1;
        while k < 150 - e
            invariant
                127 <= e <= 149,
                1 <= k <= 150 - e,
                2 <= unit <= 0x80_0000,
                unit == pow2(k as nat),
                pow2(23) == 0x80_0000,
            decreases 150 - e - k,
        {
            proof {
                lemma_pow2_unfold((k + 1) as nat);
                if k + 1 < 23 {
                    lemma_pow2_strictly_increases((k + 1) as nat, 23);
                }
            }
            unit = unit * 2;
            k = k + 1;
        }
        let low: u32 = m % unit;
        proof {
            lemma_fundamental_div_mod(m as int, unit as int);
            assert(low <= m) by (nonlinear_arith)
                requires
                    m == unit * (m / unit) + low,
                    m / unit >= 0,
                    unit > 0,
            ;
        }
        if low == 0 {
            proof {
                lemma_whole_in_binade(self, unit as nat);
                lemma_floor_is_one(self, self);
            }
            return self;
        }
        let r = if negative {
            Single { bits: SIGN_BIT + (m - low + unit) }
        } else {
            Single { bits: m - low }
        };
        proof {
            lemma_floor_in_binade(self, r, unit as nat);
            lemma_floor_is_one(r, self);
        }
        r
    }
}

} // verus!
