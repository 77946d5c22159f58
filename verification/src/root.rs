//! The square root.
//!
//! The root of a finite number that is not negative is the exact root of its
//! value, rounded once to the format.

use vstd::prelude::*;
use vstd::arithmetic::power2::{lemma_pow2_adds, lemma_pow2_pos, lemma_pow2_unfold, pow2};
use crate::quotient::lemma_parts;
use crate::rounding::{
    lemma_packed_is_one, lemma_rounded_by_parts, lemma_spacing_of_normalized, pack, pattern_of,
    round_quotient, rounded_shifted, signed,
};
use crate::single::{Single, INFINITY_BITS, QUIET_NAN_BITS, SIGN_BIT};
use crate::sum::parts_of;
use crate::whole::{lemma_exponent_below, lemma_small_shifts, spacing};

verus! {

/// `s` is the whole part of the square root of `w`.
pub open spec fn holds_root(s: nat, w: nat) -> bool {
    s * s <= w < (s + 1) * (s + 1)
}

/// The whole part of the square root of `w`.
pub open spec fn root_floor(w: nat) -> nat {
    choose|s: nat| holds_root(s, w)
}

/// The square root of `w`, in units of 2^-149 where `w` is the square of a
/// value in these units, rounded to the grid of the format. The root lies
/// above the middle between two neighbours of the grid where its square lies
/// above the square of the middle.
pub open spec fn rounded_root(w: nat) -> nat {
    let u = spacing(root_floor(w));
    let q = root_floor(w) / u;
    let twice_middle = (2 * q + 1) * u;
    if 4 * w > twice_middle * twice_middle || (4 * w == twice_middle * twice_middle && q % 2 == 1) {
        (q + 1) * u
    } else {
        q * u
    }
}

impl Single {
    /// The square root of `self`, rounded to nearest, ties to even. The root
    /// of a zero is that zero, the root of positive infinity is positive
    /// infinity, and the root of every other number with the sign bit set is
    /// a NaN.
    #[verifier::opaque]
    pub open spec fn spec_root(self) -> Single {
        if self.is_nan() {
            Single { bits: QUIET_NAN_BITS }
        } else if self.is_zero() {
            self
        } else if self.is_negative() {
            Single { bits: QUIET_NAN_BITS }
        } else if self.is_infinite() {
            self
        } else {
            signed(false, pattern_of(rounded_root(self.scaled_magnitude() * pow2(149))))
        }
    }
}

/// Every number has the whole part of its root.
pub proof fn lemma_root_floor(w: nat)
    ensures
        holds_root(root_floor(w), w),
    decreases w,
{
    if w == 0 {
        assert(0 * 0 <= 0 < (0 + 1) * (0 + 1)) by (nonlinear_arith);
        assert(holds_root(0, 0));
    } else {
        lemma_root_floor((w - 1) as nat);
        let s = root_floor((w - 1) as nat);
        if w < (s + 1) * (s + 1) {
            assert(holds_root(s, w));
        } else {
            assert(holds_root(s + 1, w)) by (nonlinear_arith)
                requires
                    w - 1 < (s + 1) * (s + 1),
                    w >= (s + 1) * (s + 1),
            ;
        }
    }
}

/// Squares grow with their roots.
proof fn lemma_squares_are_ordered(a: nat, b: nat)
    ensures
        a <= b ==> a * a <= b * b,
        a < b ==> a * a < b * b,
{
    assert(a <= b ==> a * a <= b * b) by (nonlinear_arith);
    assert(a < b ==> a * a < b * b) by (nonlinear_arith);
}

/// The whole part of the square root of `w`, for a `w` below 2^90.
fn whole_root(w: u128) -> (q: u128)
    requires
        w < 0x400_0000_0000_0000_0000_0000,
    ensures
        holds_root(q as nat, w as nat),
        q < 0x2000_0000_0000,
{
    let mut q: u128 = 0;
    let mut bit: u128 = 0x1000_0000_0000;
    let ghost mut span: nat = 0x2000_0000_0000;
    let ghost mut i: nat = 44;
    proof {
        vstd::arithmetic::power2::lemma2_to64_rest();
        assert(0x2000_0000_0000 * 0x2000_0000_0000 == 0x400_0000_0000_0000_0000_0000int)
            by (nonlinear_arith);
    }
    while bit > 0
        invariant
            q * q <= w,
            w < (q + span) * (q + span),
            q + span <= 0x2000_0000_0000,
            bit > 0 ==> bit == pow2(i) && span == 2 * bit,
            bit == 0 ==> span == 1,
            bit <= 0x1000_0000_0000,
        decreases bit,
    {
        let c = q + bit;
        assert(c * c < 0x2000_0000_0000 * 0x2000_0000_0000) by (nonlinear_arith)
            requires
                c < 0x2000_0000_0000,
        ;
        if c * c <= w {
            q = c;
        }
        proof {
            span = bit as nat;
            if bit > 1 {
                vstd::arithmetic::power2::lemma2_to64();
                if i == 0 {
                    assert(false);
                }
                lemma_pow2_unfold(i);
                i = (i - 1) as nat;
            }
        }
        bit = bit / 2;
    }
    q
}

/// The root that the library computes rounds as the exact root does. `big`
/// is the whole part of the root of `sig * 2^p`, and `n2` is twice `big`,
/// plus one where the root is not whole.
proof fn lemma_root_rounds(sig: nat, shift: nat, p: nat, wide: nat, big: nat, n2: nat, t: int)
    requires
        1 <= sig < 0x100_0000,
        shift <= 253,
        p == 64 || p == 65,
        wide == sig * pow2(p),
        holds_root(big, wide),
        n2 == 2 * big + (if big * big == wide {
            0nat
        } else {
            1nat
        }),
        2 * (t + 1) == shift + 149 - p,
    ensures
        rounded_shifted(n2, t) == rounded_root((sig * pow2(shift)) * pow2(149)),
{
    lemma_small_shifts();
    vstd::arithmetic::power2::lemma2_to64();
    vstd::arithmetic::power2::lemma2_to64_rest();
    let stick: nat = if big * big == wide {
        0
    } else {
        1
    };
    let g = (t + 1) as nat;
    let pg = pow2(g);
    lemma_pow2_pos(g);
    lemma_pow2_unfold(65);
    assert(wide >= 0x1_0000_0000_0000_0000) by (nonlinear_arith)
        requires
            wide == sig * pow2(p),
            sig >= 1,
            pow2(p) >= 0x1_0000_0000_0000_0000,
    ;
    lemma_squares_are_ordered(big + 1, 0x1_0000_0000);
    assert(0x1_0000_0000 * 0x1_0000_0000 == 0x1_0000_0000_0000_0000int) by (nonlinear_arith);
    assert(big >= 0x1_0000_0000);
    let (q, d, low) = lemma_parts(n2, 0);
    let pd = pow2(d);
    lemma_pow2_pos(d);
    assert(pd > 4) by (nonlinear_arith)
        requires
            n2 == q * pd + low,
            low < pd,
            q < 0x100_0000,
            n2 >= 0x2_0000_0000,
    ;
    lemma_exponent_below(2, d);
    lemma_rounded_by_parts(n2, t as nat, 0, q, d, low);
    let j = (d + t) as nat;
    let u = pow2(j);
    assert(rounded_shifted(n2, t) == round_quotient(q, low, pd) * u);
    // What is kept and what is dropped of the whole root.
    lemma_pow2_unfold(d);
    lemma_pow2_unfold((d - 1) as nat);
    let m = pow2((d - 2) as nat);
    lemma_pow2_pos((d - 2) as nat);
    assert(pd == 4 * m);
    let h = low / 2;
    let even = q * m;
    assert(q * (4 * m) == 4 * even) by (nonlinear_arith)
        requires
            even == q * m,
    ;
    assert(low % 2 == stick);
    assert(low == 2 * h + stick);
    assert(big == q * (2 * m) + h) by (nonlinear_arith)
        requires
            n2 == q * (4 * m) + low,
            n2 == 2 * big + stick,
            low == 2 * h + stick,
    ;
    assert(h < 2 * m);
    // The exact square, and the two neighbours of its root on the grid.
    lemma_pow2_adds((d - 1) as nat, g);
    assert(u == (2 * m) * pg);
    lemma_pow2_adds(shift, 149);
    lemma_pow2_adds(g, g);
    lemma_pow2_adds(p, g + g);
    let w = (sig * pow2(shift)) * pow2(149);
    assert(w == wide * (pg * pg)) by (nonlinear_arith)
        requires
            w == (sig * pow2(shift)) * pow2(149),
            pow2(shift) * pow2(149) == pow2(p) * (pg * pg),
            wide == sig * pow2(p),
    ;
    let below = q * (2 * m);
    let above = (q + 1) * (2 * m);
    assert(below <= big && big + 1 <= above) by (nonlinear_arith)
        requires
            below == q * (2 * m),
            above == (q + 1) * (2 * m),
            big == q * (2 * m) + h,
            h < 2 * m,
    ;
    lemma_squares_are_ordered(below, big);
    lemma_squares_are_ordered(big + 1, above);
    let lo = q * u;
    let hi = (q + 1) * u;
    assert(lo * lo <= w && hi * hi > w) by (nonlinear_arith)
        requires
            lo == q * ((2 * m) * pg),
            hi == (q + 1) * ((2 * m) * pg),
            below == q * (2 * m),
            above == (q + 1) * (2 * m),
            below * below <= wide,
            above * above > wide,
            w == wide * (pg * pg),
            pg > 0,
    ;
    lemma_root_floor(w);
    let s0 = root_floor(w);
    lemma_squares_are_ordered(s0 + 1, lo);
    lemma_squares_are_ordered(hi, s0);
    assert(lo <= s0 < hi);
    let rest = (s0 - lo) as nat;
    assert(rest < u) by (nonlinear_arith)
        requires
            rest == s0 - q * u,
            s0 < (q + 1) * u,
    ;
    assert(s0 == q * u + rest);
    lemma_spacing_of_normalized(q, j, rest);
    lemma_pow2_pos(j);
    vstd::arithmetic::div_mod::lemma_fundamental_div_mod_converse(
        s0 as int,
        u as int,
        q as int,
        rest as int,
    );
    assert(s0 / u == q);
    // On which side of the middle the root lies.
    let middle = q * (2 * m) + m;
    let twice = (2 * q + 1) * u;
    assert(twice * twice == 4 * ((middle * middle) * (pg * pg))) by (nonlinear_arith)
        requires
            twice == (2 * q + 1) * ((2 * m) * pg),
            middle == q * (2 * m) + m,
    ;
    assert((4 * w > twice * twice) == (wide > middle * middle) && (4 * w == twice * twice) == (wide
        == middle * middle)) by (nonlinear_arith)
        requires
            w == wide * (pg * pg),
            twice * twice == 4 * ((middle * middle) * (pg * pg)),
            pg > 0,
    ;
    lemma_squares_are_ordered(middle + 1, big);
    lemma_squares_are_ordered(big + 1, middle);
    lemma_squares_are_ordered(middle, middle + 1);
    assert(big * big <= wide < (big + 1) * (big + 1));
    assert((big > middle) == (h > m) && (big == middle) == (h == m));
    if big > middle {
        assert(wide > middle * middle);
    } else if big == middle {
        assert((wide > middle * middle) == (stick == 1));
    } else {
        assert(wide < middle * middle);
    }
    assert((wide > middle * middle) == (h > m || (h == m && stick == 1)));
    assert((wide == middle * middle) == (h == m && stick == 0));
    assert((2 * low > pd) == (h > m || (h == m && stick == 1)));
    assert((2 * low == pd) == (h == m && stick == 0));
}

/// The square root of `a`.
pub fn root(a: Single) -> (r: Single)
    ensures
        r == a.spec_root(),
{
    reveal(Single::spec_root);
    let negative = a.bits >= SIGN_BIT;
    let m: u32 = if negative {
        a.bits - SIGN_BIT
    } else {
        a.bits
    };
    if m > INFINITY_BITS {
        return Single { bits: QUIET_NAN_BITS };
    }
    if m == 0 {
        return a;
    }
    if negative {
        return Single { bits: QUIET_NAN_BITS };
    }
    if m == INFINITY_BITS {
        return a;
    }
    let (sig, shift, _) = parts_of(a);
    let odd = shift % 2 == 1;
    let p: u32 = if odd {
        64
    } else {
        65
    };
    let scale: u128 = if odd {
        0x1_0000_0000_0000_0000
    } else {
        0x2_0000_0000_0000_0000
    };
    proof {
        vstd::arithmetic::power2::lemma2_to64();
        lemma_pow2_unfold(65);
        assert(sig * scale < 0x100_0000 * 0x2_0000_0000_0000_0000) by (nonlinear_arith)
            requires
                sig < 0x100_0000,
                scale <= 0x2_0000_0000_0000_0000,
        ;
    }
    let wide: u128 = (sig as u128) * scale;
    let big = whole_root(wide);
    assert(big * big < 0x2000_0000_0000 * 0x2000_0000_0000) by (nonlinear_arith)
        requires
            big < 0x2000_0000_0000,
    ;
    let n2: u128 = if big * big == wide {
        2 * big
    } else {
        2 * big + 1
    };
    let t: i32 = ((shift + 149 - p) / 2) as i32 - 1;
    let bits = pack(n2, t);
    proof {
        lemma_root_rounds(
            sig as nat,
            shift as nat,
            p as nat,
            wide as nat,
            big as nat,
            n2 as nat,
            t as int,
        );
        lemma_packed_is_one(bits, rounded_root(a.scaled_magnitude() * pow2(149)));
    }
    Single { bits }
}

} // verus!
