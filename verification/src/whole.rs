//! Whole numbers as single-precision numbers.
//!
//! A particle's seed is its index taken as a number of the format. Indices
//! up to 2^24 are held exactly; a larger one is rounded to twenty-four
//! significant bits, and a tie goes to the even neighbour.

use vstd::prelude::*;
use vstd::arithmetic::div_mod::{lemma_div_denominator, lemma_fundamental_div_mod};
use vstd::arithmetic::power2::{
    lemma2_to64, lemma2_to64_rest, lemma_pow2_strictly_increases, lemma_pow2_unfold, pow2,
};
use crate::single::Single;
use crate::value::{lemma_shift_splits, lemma_value_names_pattern};

verus! {

/// Distance between neighbouring numbers of the format at `n`: 1 below 2^24,
/// and doubling with every further bit of `n`.
pub open spec fn spacing(n: nat) -> nat
    decreases n,
{
    if n < 0x100_0000 {
        1
    } else {
        2 * spacing(n / 2)
    }
}

/// The multiple of `spacing(n)` nearest to `n`; of two equally near, the
/// even multiple.
pub open spec fn nearest_multiple(n: nat) -> nat {
    let u = spacing(n);
    let q = n / u;
    let r = n % u;
    if 2 * r > u || (2 * r == u && q % 2 == 1) {
        (q + 1) * u
    } else {
        q * u
    }
}

/// `s` is finite, not negative, and its value is the whole number `n`.
pub open spec fn holds_whole(s: Single, n: nat) -> bool {
    &&& s.is_finite()
    &&& !s.is_negative()
    &&& s.scaled_magnitude() == n * pow2(149)
}

/// The number of the format that stands for the whole number `n`: `n` itself
/// where the format holds it, else its nearest neighbour.
pub open spec fn whole(n: nat) -> Single {
    choose|s: Single| holds_whole(s, nearest_multiple(n))
}

/// A whole number below 2^24 is held as it is.
pub proof fn lemma_small_whole_is_exact(n: nat)
    requires
        n < 0x100_0000,
    ensures
        nearest_multiple(n) == n,
{
    assert(spacing(n) == 1);
    assert(n / 1 == n && n % 1 == 0);
    assert(n * 1 == n);
}

pub proof fn lemma_small_shifts()
    ensures
        pow2(0) == 1,
        pow2(1) == 2,
        pow2(23) == 0x80_0000,
        pow2(40) == 0x100_0000_0000,
{
    lemma2_to64();
    lemma2_to64_rest();
}

/// A power of two below 2^`k` has an exponent below `k`.
pub proof fn lemma_exponent_below(j: nat, k: nat)
    requires
        pow2(j) < pow2(k),
    ensures
        j < k,
{
    if j > k {
        lemma_pow2_strictly_increases(k, j);
    }
}

/// The value of a pattern assembled from a significand `m` with its hidden
/// bit and an exponent field `e`. A significand that was carried up to 2^24
/// spills into the exponent and is still right.
pub proof fn lemma_assembled_value(m: nat, e: nat, r: Single)
    requires
        0x80_0000 <= m <= 0x100_0000,
        1 <= e <= 254,
        e <= 253 || m < 0x100_0000,
        r.magnitude() == e * 0x80_0000 + (m - 0x80_0000),
    ensures
        r.is_finite(),
        r.scaled_magnitude() == m * pow2((e - 1) as nat),
{
    if m < 0x100_0000 {
        assert(r.exponent_field() == e);
        assert(r.fraction_field() == m - 0x80_0000);
    } else {
        assert(r.exponent_field() == e + 1);
        assert(r.fraction_field() == 0);
        lemma_pow2_unfold(e);
        let p = pow2((e - 1) as nat) as int;
        assert(0x80_0000 * (2 * p) == 0x100_0000 * p) by (nonlinear_arith);
    }
}

impl Single {
    /// The whole number `n` as a number of the format, rounded to nearest
    /// where the format cannot hold it, ties to even.
    pub fn from_whole(n: u64) -> (r: Single)
        ensures
            r == whole(n as nat),
            holds_whole(r, nearest_multiple(n as nat)),
    {
        proof {
            lemma_small_shifts();
        }
        if n == 0 {
            let r = Single { bits: 0 };
            proof {
                assert(nearest_multiple(0) == 0);
                assert(r.significand() == 0);
                assert(r.scaled_magnitude() == 0) by (nonlinear_arith)
                    requires
                        r.scaled_magnitude() == r.significand() * pow2(r.shift()),
                        r.significand() == 0,
                ;
                assert(holds_whole(r, 0));
                lemma_value_names_pattern(r, whole(0));
            }
            return r;
        }
        let mut q: u64 = n;
        let mut u: u64 = 1;
        let mut e: u32 = 150;
        while q >= 0x100_0000
            invariant
                n >= 1,
                q >= 1,
                u >= 1,
                q as int == (n as int) / (u as int),
                150 <= e <= 190,
                u as nat == pow2((e - 150) as nat),
                pow2(40) == 0x100_0000_0000,
                spacing(n as nat) == u * spacing(q as nat),
                (u == 1 && e == 150) || q >= 0x80_0000,
            decreases q,
        {
            proof {
                lemma_div_denominator(n as int, u as int, 2);
                lemma_fundamental_div_mod(n as int, u as int);
                assert(u < 0x100_0000_0000) by (nonlinear_arith)
                    requires
                        u * q <= n,
                        q >= 0x100_0000,
                        n < 0x1_0000_0000_0000_0000,
                        u >= 1,
                ;
                lemma_exponent_below((e - 150) as nat, 40);
                lemma_pow2_unfold((e + 1 - 150) as nat);
                let s = spacing((q / 2) as nat) as int;
                assert(u * (2 * s) == (u * 2) * s) by (nonlinear_arith);
            }
            q = q / 2;
            u = u * 2;
            e = e + 1;
        }
        let rem: u64 = n % u;
        proof {
            lemma_fundamental_div_mod(n as int, u as int);
            assert(u < 0x200_0000_0000) by (nonlinear_arith)
                requires
                    u * q <= n,
                    (u == 1) || q >= 0x80_0000,
                    n < 0x1_0000_0000_0000_0000,
                    u >= 1,
            ;
        }
        let up: bool = 2 * rem > u || (2 * rem == u && q % 2 == 1);
        let mut m: u64 = if up {
            q + 1
        } else {
            q
        };
        let ghost goal: nat = nearest_multiple(n as nat);
        proof {
            assert(spacing(q as nat) == 1);
            assert(spacing(n as nat) == u) by (nonlinear_arith)
                requires
                    spacing(n as nat) == u * spacing(q as nat),
                    spacing(q as nat) == 1,
            ;
            assert(goal == m * u);
            lemma_shift_splits((e - 150) as nat, 149);
            let p = pow2((e - 150) as nat) as int;
            let h = pow2(149) as int;
            assert((m * p) * h == m * (p * h)) by (nonlinear_arith);
        }
        if m < 0x80_0000 {
            while m < 0x80_0000
                invariant
                    1 <= m < 0x100_0000,
                    127 <= e <= 150,
                    m >= pow2((150 - e) as nat),
                    pow2(23) == 0x80_0000,
                    m * pow2((e - 1) as nat) == goal * pow2(149),
                decreases e,
            {
                proof {
                    lemma_exponent_below((150 - e) as nat, 23);
                    lemma_pow2_unfold((150 - e + 1) as nat);
                    lemma_pow2_unfold((e - 1) as nat);
                    let p = pow2((e - 2) as nat) as int;
                    assert((m * 2) * p == m * (2 * p)) by (nonlinear_arith);
                }
                m = m * 2;
                e = e - 1;
            }
        }
        let r = Single { bits: e * 0x80_0000 + (m as u32 - 0x80_0000) };
        proof {
            assert(r.magnitude() == r.bits);
            lemma_assembled_value(m as nat, e as nat, r);
            assert(holds_whole(r, goal));
            lemma_value_names_pattern(r, whole(n as nat));
        }
        r
    }
}

} // verus!
