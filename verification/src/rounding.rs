//! Rounding to the format.
//!
//! An exact result, a whole number of units of 2^-149 or of a finer power of
//! two, is brought to the nearest number that the format holds; of two
//! equally near, to the one with the even significand.

use vstd::prelude::*;
use vstd::arithmetic::div_mod::{
    lemma_div_denominator, lemma_fundamental_div_mod, lemma_fundamental_div_mod_converse,
};
use vstd::arithmetic::power2::{
    lemma_pow2_pos, lemma_pow2_strictly_increases, lemma_pow2_unfold, pow2,
};
use crate::single::{Single, INFINITY_BITS, SIGN_BIT};
use crate::whole::{lemma_assembled_value, lemma_exponent_below, lemma_small_shifts, spacing};

verus! {

/// The multiple of `u` nearest to `n`; of two equally near, the even
/// multiple.
pub open spec fn nearest_multiple_of(n: nat, u: nat) -> nat {
    let q = n / u;
    let r = n % u;
    if 2 * r > u || (2 * r == u && q % 2 == 1) {
        (q + 1) * u
    } else {
        q * u
    }
}

/// The exact value `n / 2^k`, in units of 2^-149, rounded to the grid of the
/// format, as a whole number of units. The grid is as wide as the format's
/// spacing at that value, and never finer than one unit.
pub open spec fn rounded(n: nat, k: nat) -> nat {
    nearest_multiple_of(n, pow2(k) * spacing(n / pow2(k))) / pow2(k)
}

/// The least value, in units of 2^-149, that is too large for the format:
/// 2^128.
pub open spec fn overflow_threshold() -> nat {
    0x100_0000 * pow2(253)
}

/// With `n = q * u + r` and `r` below `u`, this is what `n` rounds to among
/// the multiples of `u`.
pub proof fn lemma_nearest_from_parts(n: nat, u: nat, q: nat, r: nat)
    requires
        u > 0,
        r < u,
        n == q * u + r,
    ensures
        nearest_multiple_of(n, u) == (if 2 * r > u || (2 * r == u && q % 2 == 1) {
            (q + 1) * u
        } else {
            q * u
        }),
{
    lemma_fundamental_div_mod_converse(n as int, u as int, q as int, r as int);
}

/// Between `q * 2^j` and `(q + 1) * 2^j`, for a `q` of twenty-four bits, the
/// format's numbers lie `2^j` apart.
pub proof fn lemma_spacing_of_normalized(q: nat, j: nat, r: nat)
    requires
        0x80_0000 <= q < 0x100_0000,
        r < pow2(j),
    ensures
        spacing(q * pow2(j) + r) == pow2(j),
    decreases j,
{
    let m = q * pow2(j) + r;
    lemma_pow2_pos(j);
    if j == 0 {
        assert(pow2(0) == 1) by {
            vstd::arithmetic::power2::lemma2_to64();
        }
        assert(m == q) by (nonlinear_arith)
            requires
                m == q * pow2(j) + r,
                pow2(j) == 1,
                r < 1,
        ;
    } else {
        lemma_pow2_unfold(j);
        let h = pow2((j - 1) as nat);
        lemma_pow2_pos((j - 1) as nat);
        assert(m >= 0x100_0000) by (nonlinear_arith)
            requires
                m == q * (2 * h) + r,
                q >= 0x80_0000,
                h >= 1,
        ;
        let r2 = r / 2;
        assert(r2 < h);
        assert(m == (q * h + r2) * 2 + r % 2) by (nonlinear_arith)
            requires
                m == q * (2 * h) + r,
                r == 2 * r2 + r % 2,
        ;
        lemma_fundamental_div_mod_converse(m as int, 2, (q * h + r2) as int, (r % 2) as int);
        assert(m / 2 == q * h + r2);
        lemma_spacing_of_normalized(q, (j - 1) as nat, r2);
    }
}

/// Which way a remainder `r` below the step `u` rounds the quotient `q`:
/// up where it is above half a step, and at half a step where `q` is odd.
pub open spec fn rounds_up(q: nat, r: nat, u: nat) -> bool {
    2 * r > u || (2 * r == u && q % 2 == 1)
}

/// The quotient after rounding.
pub open spec fn round_quotient(q: nat, r: nat, u: nat) -> nat {
    if rounds_up(q, r, u) {
        q + 1
    } else {
        q
    }
}

/// Rounding by parts. Let the exact value be `n * 2^a / 2^k` units with
/// `n = q * 2^d + r`, `r` below `2^d`, and let `d + a` be at least `k`. If `q`
/// has twenty-four bits, or if it has fewer and `d + a` is `k`, the value
/// rounds to the rounded quotient times `2^(d + a - k)`.
pub proof fn lemma_rounded_by_parts(n: nat, a: nat, k: nat, q: nat, d: nat, r: nat)
    requires
        n == q * pow2(d) + r,
        r < pow2(d),
        q < 0x100_0000,
        d + a >= k,
        q >= 0x80_0000 || d + a == k,
    ensures
        rounded(n * pow2(a), k) == round_quotient(q, r, pow2(d)) * pow2((d + a - k) as nat),
{
    let pd = pow2(d);
    let pa = pow2(a);
    let pk = pow2(k);
    let big = pow2(d + a);
    let j = (d + a - k) as nat;
    let pj = pow2(j);
    lemma_pow2_pos(d);
    lemma_pow2_pos(a);
    lemma_pow2_pos(k);
    lemma_pow2_pos(j);
    vstd::arithmetic::power2::lemma_pow2_adds(d, a);
    vstd::arithmetic::power2::lemma_pow2_adds(j, k);
    assert(big == pd * pa);
    assert(big == pj * pk);
    let whole = n * pa;
    let rest = r * pa;
    assert(whole == q * big + rest && rest < big) by (nonlinear_arith)
        requires
            whole == n * pa,
            n == q * pd + r,
            rest == r * pa,
            big == pd * pa,
            r < pd,
            pa > 0,
    ;
    // The value in whole units, before rounding.
    let low = rest / pk;
    lemma_fundamental_div_mod(rest as int, pk as int);
    assert(low < pj) by (nonlinear_arith)
        requires
            rest == pk * low + rest % pk,
            rest % pk >= 0,
            rest < pj * pk,
            pk > 0,
    ;
    assert(whole == (q * pj + low) * pk + rest % pk) by (nonlinear_arith)
        requires
            whole == q * big + rest,
            big == pj * pk,
            rest == pk * low + rest % pk,
    ;
    lemma_fundamental_div_mod_converse(
        whole as int,
        pk as int,
        (q * pj + low) as int,
        (rest % pk) as int,
    );
    assert(whole / pk == q * pj + low);
    if q >= 0x80_0000 {
        lemma_spacing_of_normalized(q, j, low);
    } else {
        assert(pj == 1) by {
            vstd::arithmetic::power2::lemma2_to64();
        }
        assert(q * pj + low == q) by (nonlinear_arith)
            requires
                pj == 1,
                low < pj,
        ;
        assert(spacing(q) == 1);
    }
    assert(spacing(whole / pk) == pj);
    assert(pk * spacing(whole / pk) == big) by (nonlinear_arith)
        requires
            spacing(whole / pk) == pj,
            big == pj * pk,
    ;
    lemma_nearest_from_parts(whole, big, q, rest);
    assert(rounds_up(q, rest, big) == rounds_up(q, r, pd)) by (nonlinear_arith)
        requires
            rest == r * pa,
            big == pd * pa,
            pa > 0,
    ;
    let up = round_quotient(q, r, pd);
    assert(nearest_multiple_of(whole, big) == up * big);
    assert(up * big == (up * pj) * pk + 0) by (nonlinear_arith)
        requires
            big == pj * pk,
    ;
    lemma_fundamental_div_mod_converse((up * big) as int, pk as int, (up * pj) as int, 0);
}

/// Rounding sees only the value: `n * 2^j / 2^(k + j)` rounds as `n / 2^k`
/// does.
pub proof fn lemma_rounded_cancels(n: nat, k: nat, j: nat)
    ensures
        rounded(n * pow2(j), k + j) == rounded(n, k),
{
    let pk = pow2(k);
    let pj = pow2(j);
    let pkj = pow2(k + j);
    lemma_pow2_pos(k);
    lemma_pow2_pos(j);
    vstd::arithmetic::power2::lemma_pow2_adds(k, j);
    assert(pkj == pj * pk) by (nonlinear_arith)
        requires
            pkj == pk * pj,
    ;
    let big = n * pj;
    assert(big == pj * n) by (nonlinear_arith)
        requires
            big == n * pj,
    ;
    vstd::arithmetic::div_mod::lemma_div_multiples_vanish_quotient(pj as int, n as int, pk as int);
    assert(big / pkj == n / pk);
    let sp = spacing(n / pk);
    let u = pk * sp;
    let uj = pkj * sp;
    assert(sp >= 1) by {
        lemma_spacing_is_positive(n / pk);
    }
    assert(u > 0 && uj == u * pj) by (nonlinear_arith)
        requires
            u == pk * sp,
            uj == pkj * sp,
            pkj == pj * pk,
            pk > 0,
            sp >= 1,
    ;
    let q = n / u;
    let r = n % u;
    lemma_fundamental_div_mod(n as int, u as int);
    assert(big == q * uj + r * pj && r * pj < uj) by (nonlinear_arith)
        requires
            big == n * pj,
            n == u * q + r,
            uj == u * pj,
            0 <= r < u,
            pj > 0,
    ;
    lemma_nearest_from_parts(big, uj, q, r * pj);
    assert(rounds_up(q, r * pj, uj) == rounds_up(q, r, u)) by (nonlinear_arith)
        requires
            uj == u * pj,
            pj > 0,
    ;
    let up = round_quotient(q, r, u);
    let near = nearest_multiple_of(n, u);
    assert(near == up * u);
    assert(nearest_multiple_of(big, uj) == pj * near) by (nonlinear_arith)
        requires
            nearest_multiple_of(big, uj) == up * uj,
            near == up * u,
            uj == u * pj,
    ;
    vstd::arithmetic::div_mod::lemma_div_multiples_vanish_quotient(pj as int, near as int, pk as int);
}

/// The spacing is at least one.
pub proof fn lemma_spacing_is_positive(n: nat)
    ensures
        spacing(n) >= 1,
    decreases n,
{
    if n >= 0x100_0000 {
        lemma_spacing_is_positive(n / 2);
    }
}

/// The exact value `n * 2^t`, in units of 2^-149, rounded to the format.
pub open spec fn rounded_shifted(n: nat, t: int) -> nat {
    if t >= 0 {
        rounded(n * pow2(t as nat), 0)
    } else {
        rounded(n, (-t) as nat)
    }
}

/// `m` is the pattern, without a sign, of the rounded value `value`: the
/// finite pattern that stands for it, or that of infinity where the value is
/// too large for the format.
pub open spec fn packed(m: u32, value: nat) -> bool {
    if value < overflow_threshold() {
        m < INFINITY_BITS && (Single { bits: m }).scaled_magnitude() == value
    } else {
        m == INFINITY_BITS
    }
}

/// The pattern that stands for the rounded value `value`.
pub open spec fn pattern_of(value: nat) -> u32 {
    choose|m: u32| packed(m, value)
}

/// The pattern `m` under a sign.
pub open spec fn signed(negative: bool, m: u32) -> Single {
    if negative {
        Single { bits: (m + SIGN_BIT) as u32 }
    } else {
        Single { bits: m }
    }
}

/// A rounded value has one pattern.
pub proof fn lemma_packed_is_one(m: u32, value: nat)
    requires
        packed(m, value),
    ensures
        m == pattern_of(value),
{
    let c = pattern_of(value);
    assert(packed(c, value));
    if value < overflow_threshold() {
        crate::value::lemma_value_names_pattern(Single { bits: m }, Single { bits: c });
    }
}

/// The value of the pattern `s * 2^23 + q`: `q * 2^s`, where `q` is a
/// significand with its hidden bit, or any significand at the lowest
/// exponent.
pub proof fn lemma_packed_value(q: nat, s: nat, r: Single)
    requires
        q <= 0x100_0000,
        s == 0 || q >= 0x80_0000,
        s <= 253,
        r.magnitude() == s * 0x80_0000 + q,
        r.magnitude() < INFINITY_BITS,
    ensures
        r.scaled_magnitude() == q * pow2(s),
{
    if q >= 0x80_0000 {
        lemma_assembled_value(q, s + 1, r);
    } else {
        assert(r.exponent_field() == 0);
        assert(r.fraction_field() == q);
    }
}

/// 2^100, the bound on what `pack` takes.
pub const PACK_LIMIT: u128 = 0x10_0000_0000_0000_0000_0000_0000;

proof fn lemma_pack_limit()
    ensures
        pow2(100) == PACK_LIMIT,
{
    vstd::arithmetic::power2::lemma2_to64_rest();
    vstd::arithmetic::power2::lemma_pow2_adds(50, 50);
    assert(pow2(50) == 0x4_0000_0000_0000);
    assert(0x4_0000_0000_0000 * 0x4_0000_0000_0000 == 0x10_0000_0000_0000_0000_0000_0000int)
        by (nonlinear_arith);
}

/// Rounds the exact value `n * 2^t`, in units of 2^-149, to the format and
/// gives the pattern of the result without a sign.
pub(crate) fn pack(n: u128, t: i32) -> (m: u32)
    requires
        n < PACK_LIMIT,
        -1000 <= t <= 1000,
    ensures
        packed(m, rounded_shifted(n as nat, t as int)),
{
    let ghost nn: nat = n as nat;
    let ghost goal = rounded_shifted(n as nat, t as int);
    let ghost a: nat = if t >= 0 {
        t as nat
    } else {
        0
    };
    let ghost k: nat = if t >= 0 {
        0
    } else {
        (-t) as nat
    };
    proof {
        lemma_small_shifts();
        lemma_pack_limit();
        lemma_pow2_pos(253);
        assert(n * pow2(0) == n) by (nonlinear_arith)
            requires
                pow2(0) == 1,
        ;
        assert(goal == rounded(nn * pow2(a), k));
    }
    if n == 0 {
        proof {
            assert(0 * pow2(a) == 0 && 0 * pow2(k) == 0 && 0 * pow2(0) == 0) by (nonlinear_arith);
            lemma_pow2_pos(k);
            lemma_rounded_by_parts(0, 0, k, 0, k, 0);
            assert((Single { bits: 0 }).scaled_magnitude() == 0) by (nonlinear_arith)
                requires
                    (Single { bits: 0 }).scaled_magnitude() == (Single { bits: 0 }).significand() * pow2(
                        (Single { bits: 0 }).shift(),
                    ),
                    (Single { bits: 0 }).significand() == 0,
            ;
        }
        return 0;
    }
    let mut q: u128 = n;
    let mut d: u32 = 0;
    let mut p: u128 = 1;
    while q >= 0x100_0000
        invariant
            1 <= n < PACK_LIMIT,
            pow2(100) == PACK_LIMIT,
            q >= 1,
            p >= 1,
            q as int == (n as int) / (p as int),
            p as nat == pow2(d as nat),
            d <= 100,
            d == 0 || q >= 0x80_0000,
        decreases q,
    {
        proof {
            lemma_div_denominator(n as int, p as int, 2);
            lemma_fundamental_div_mod(n as int, p as int);
            assert(p * 2 < PACK_LIMIT) by (nonlinear_arith)
                requires
                    p * q <= n,
                    q >= 0x100_0000,
                    n < PACK_LIMIT,
                    p >= 1,
            ;
            lemma_exponent_below(d as nat, 100);
            lemma_pow2_unfold((d + 1) as nat);
        }
        q = q / 2;
        p = p * 2;
        d = d + 1;
    }
    let ghost mut ran: bool = false;
    while t + (d as i32) < 0 && q > 0
        invariant
            1 <= n < PACK_LIMIT,
            pow2(100) == PACK_LIMIT,
            -1000 <= t <= 1000,
            p >= 1,
            q < 0x100_0000,
            q as int == (n as int) / (p as int),
            p as nat == pow2(d as nat),
            d <= 101,
            q >= 1 ==> d <= 100,
            ran ==> t + d <= 0,
            !ran ==> (d == 0 || q >= 0x80_0000),
        decreases q,
    {
        proof {
            lemma_div_denominator(n as int, p as int, 2);
            lemma_fundamental_div_mod(n as int, p as int);
            assert(p < PACK_LIMIT) by (nonlinear_arith)
                requires
                    p * q <= n,
                    q >= 1,
                    n < PACK_LIMIT,
                    p >= 1,
            ;
            lemma_exponent_below(d as nat, 100);
            lemma_pow2_unfold((d + 1) as nat);
            ran = true;
        }
        q = q / 2;
        p = p * 2;
        d = d + 1;
    }
    let rem: u128 = n % p;
    proof {
        lemma_fundamental_div_mod(n as int, p as int);
        assert(n == q * p + rem) by (nonlinear_arith)
            requires
                n == p * q + rem,
        ;
    }
    if t + (d as i32) < 0 {
        proof {
            // Nothing is left of `n` above the last place, and less than
            // half a unit below it.
            assert(q == 0);
            assert(q * p == 0) by (nonlinear_arith)
                requires
                    q == 0,
            ;
            assert(n == rem);
            lemma_pow2_strictly_increases(d as nat, k);
            lemma_pow2_unfold(k);
            if (d as nat) < (k - 1) as nat {
                lemma_pow2_strictly_increases(d as nat, (k - 1) as nat);
            }
            assert(2 * n < pow2(k));
            lemma_rounded_by_parts(n as nat, 0, k, 0, k, n as nat);
            assert(goal == 0) by (nonlinear_arith)
                requires
                    goal == round_quotient(0, n as nat, pow2(k)) * pow2(0),
                    round_quotient(0, n as nat, pow2(k)) == 0,
            ;
            assert((Single { bits: 0 }).scaled_magnitude() == 0) by (nonlinear_arith)
                requires
                    (Single { bits: 0 }).scaled_magnitude() == (Single { bits: 0 }).significand() * pow2(
                        (Single { bits: 0 }).shift(),
                    ),
                    (Single { bits: 0 }).significand() == 0,
            ;
        }
        return 0;
    }
    let mut s: u32 = (t + (d as i32)) as u32;
    let up: bool = 2 * rem > p || (2 * rem == p && q % 2 == 1);
    let mut kept: u128 = if up {
        q + 1
    } else {
        q
    };
    if d == 0 {
        proof {
            assert(rem == 0 && kept == n);
            assert(kept * pow2(s as nat) == n * pow2(a));
        }
        while kept < 0x80_0000 && s > 0
            invariant
                1 <= kept < 0x100_0000,
                s <= 1000,
                kept * pow2(s as nat) == n * pow2(a),
            decreases s,
        {
            proof {
                lemma_pow2_unfold(s as nat);
                let h = pow2((s - 1) as nat);
                assert((kept * 2) * h == kept * (2 * h)) by (nonlinear_arith);
            }
            kept = kept * 2;
            s = s - 1;
        }
        proof {
            assert(kept == kept * pow2(0) + 0) by (nonlinear_arith)
                requires
                    pow2(0) == 1,
            ;
            lemma_rounded_by_parts(kept as nat, s as nat, 0, kept as nat, 0, 0);
            assert(round_quotient(kept as nat, 0, pow2(0)) == kept);
            assert(goal == kept * pow2(s as nat));
        }
    } else {
        proof {
            lemma_rounded_by_parts(n as nat, a, k, q as nat, d as nat, rem as nat);
            assert(round_quotient(q as nat, rem as nat, pow2(d as nat)) == kept);
            assert((d + a - k) as nat == s as nat);
            assert(goal == kept * pow2(s as nat));
        }
    }
    if s >= 254 {
        proof {
            lemma_pow2_unfold(254);
            if s > 254 {
                lemma_pow2_strictly_increases(254, s as nat);
            }
            assert(goal >= overflow_threshold()) by (nonlinear_arith)
                requires
                    goal == kept * pow2(s as nat),
                    kept >= 0x80_0000,
                    pow2(s as nat) >= 2 * pow2(253),
                    overflow_threshold() == 0x100_0000 * pow2(253),
            ;
        }
        return INFINITY_BITS;
    }
    let m: u32 = s * 0x80_0000 + kept as u32;
    proof {
        let r = Single { bits: m };
        assert(r.magnitude() == m);
        if m == INFINITY_BITS {
            assert(s == 253 && kept == 0x100_0000);
        } else {
            lemma_packed_value(kept as nat, s as nat, r);
            if s < 253 {
                lemma_pow2_strictly_increases(s as nat, 253);
            }
            lemma_pow2_pos(s as nat);
            assert(goal < overflow_threshold()) by (nonlinear_arith)
                requires
                    goal == kept * pow2(s as nat),
                    kept <= 0x100_0000,
                    kept < 0x100_0000 || pow2(s as nat) < pow2(253),
                    0 < pow2(s as nat) <= pow2(253),
                    overflow_threshold() == 0x100_0000 * pow2(253),
            ;
        }
    }
    m
}

} // verus!
