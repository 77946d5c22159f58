use motion_core::product::times;
use motion_core::quotient::over;
use motion_core::root::root;
use motion_core::single::Single;
use motion_core::sum::{minus, negate, plus};

fn n(x: f32) -> Single {
    Single::from_bits(x.to_bits())
}

fn x(s: Single) -> f32 {
    f32::from_bits(s.to_bits())
}

fn alike(a: f32, b: f32) -> bool {
    a.to_bits() == b.to_bits() || (a.is_nan() && b.is_nan())
}

fn edge_values() -> Vec<f32> {
    vec![
        0.0,
        -0.0,
        1.0,
        -1.0,
        1.5,
        0.1,
        0.12,
        0.92,
        60.0,
        1.0e-45,
        -1.0e-45,
        3.0e-45,
        1.1754942e-38,
        1.17549435e-38,
        -1.17549435e-38,
        2.3509887e-38,
        1.0e-20,
        5.960_464_5e-8,
        16_777_216.0,
        16_777_215.0,
        8_388_608.0,
        8_388_607.5,
        1.0e20,
        f32::MAX,
        f32::MIN,
        1.7014118e38,
        f32::INFINITY,
        f32::NEG_INFINITY,
        f32::NAN,
    ]
}

#[test]
fn sums_of_known_values() {
    assert_eq!(x(plus(n(1.0), n(2.0))), 3.0);
    assert_eq!(x(plus(n(0.1), n(0.2))), 0.1f32 + 0.2f32);
    assert_eq!(plus(n(0.1), n(0.2)).to_bits(), 0x3e99_999a);
    assert_eq!(x(plus(n(16_777_216.0), n(1.0))), 16_777_216.0);
    assert_eq!(x(plus(n(16_777_216.0), n(3.0))), 16_777_220.0);
    assert_eq!(x(plus(n(1.0e20), n(1.0))), 1.0e20);
    assert_eq!(x(plus(n(1.0e20), n(-1.0))), 1.0e20);
    assert_eq!(x(plus(n(f32::MAX), n(f32::MAX))), f32::INFINITY);
    assert_eq!(x(plus(n(f32::MAX), n(1.0e30))), f32::MAX);
    assert_eq!(x(plus(n(f32::MIN), n(f32::MIN))), f32::NEG_INFINITY);
    assert_eq!(x(plus(n(1.0e-45), n(1.0e-45))), 3.0e-45);
}

#[test]
fn a_sum_that_cancels_is_positive_zero() {
    assert_eq!(plus(n(5.5), n(-5.5)).to_bits(), 0);
    assert_eq!(plus(n(-5.5), n(5.5)).to_bits(), 0);
    assert_eq!(plus(n(0.0), n(-0.0)).to_bits(), 0);
    assert_eq!(plus(n(-0.0), n(0.0)).to_bits(), 0);
    assert_eq!(plus(n(-0.0), n(-0.0)).to_bits(), 0x8000_0000);
    assert_eq!(minus(n(7.0), n(7.0)).to_bits(), 0);
    assert_eq!(minus(n(-0.0), n(0.0)).to_bits(), 0x8000_0000);
}

#[test]
fn sums_with_infinities_and_nans() {
    assert_eq!(x(plus(n(f32::INFINITY), n(1.0))), f32::INFINITY);
    assert_eq!(x(plus(n(-3.0), n(f32::NEG_INFINITY))), f32::NEG_INFINITY);
    assert_eq!(x(plus(n(f32::INFINITY), n(f32::INFINITY))), f32::INFINITY);
    assert!(x(plus(n(f32::INFINITY), n(f32::NEG_INFINITY))).is_nan());
    assert!(x(minus(n(f32::INFINITY), n(f32::INFINITY))).is_nan());
    assert!(x(plus(n(f32::NAN), n(1.0))).is_nan());
    assert!(x(plus(n(1.0), n(f32::NAN))).is_nan());
    assert_eq!(plus(n(f32::NAN), n(1.0)).to_bits(), 0x7fc0_0000);
}

#[test]
fn negation_turns_the_sign_only() {
    assert_eq!(x(negate(n(2.5))), -2.5);
    assert_eq!(x(negate(n(-2.5))), 2.5);
    assert_eq!(negate(n(0.0)).to_bits(), 0x8000_0000);
    assert_eq!(negate(n(-0.0)).to_bits(), 0);
    assert_eq!(x(negate(n(f32::INFINITY))), f32::NEG_INFINITY);
    assert_eq!(negate(Single::from_bits(0x7fc0_0001)).to_bits(), 0xffc0_0001);
}

#[test]
fn products_of_known_values() {
    assert_eq!(x(times(n(3.0), n(4.0))), 12.0);
    assert_eq!(x(times(n(-3.0), n(4.0))), -12.0);
    assert_eq!(x(times(n(1000.0), n(0.12))), 120.0);
    assert_eq!(times(n(0.1), n(0.1)).to_bits(), 0x3c23_d70b);
    assert_eq!(x(times(n(0.1), n(60.0))), 6.0);
    assert_eq!(x(times(n(f32::MAX), n(2.0))), f32::INFINITY);
    assert_eq!(x(times(n(f32::MAX), n(-2.0))), f32::NEG_INFINITY);
    assert_eq!(x(times(n(1.0e-30), n(1.0e-30))), 0.0);
    assert_eq!(times(n(-1.0e-30), n(1.0e-30)).to_bits(), 0x8000_0000);
    assert_eq!(times(n(0.0), n(-7.0)).to_bits(), 0x8000_0000);
    assert_eq!(times(n(-0.0), n(-7.0)).to_bits(), 0);
}

#[test]
fn products_below_the_normal_range_round_once() {
    // The exact product lies just under half of the smallest subnormal.
    let a = f32::from_bits(0x00f8_65b4);
    let b = f32::from_bits(0x30a5_d583);
    assert_eq!(times(n(a), n(b)).to_bits(), 0);
    assert_eq!(x(times(n(1.0e-45), n(0.5))), 0.0);
    assert_eq!(x(times(n(3.0e-45), n(0.5))), 1.0e-45);
    assert_eq!(x(times(n(4.0e-45), n(0.5))), 3.0e-45);
    assert_eq!(x(times(n(1.17549435e-38), n(0.5))), 1.17549435e-38f32 * 0.5);
    assert_eq!(x(times(n(1.17549435e-38), n(0.99999994))), 1.17549435e-38f32 * 0.99999994f32);
}

#[test]
fn products_with_infinities_and_nans() {
    assert_eq!(x(times(n(f32::INFINITY), n(-2.0))), f32::NEG_INFINITY);
    assert_eq!(x(times(n(f32::NEG_INFINITY), n(f32::NEG_INFINITY))), f32::INFINITY);
    assert!(x(times(n(f32::INFINITY), n(0.0))).is_nan());
    assert!(x(times(n(-0.0), n(f32::NEG_INFINITY))).is_nan());
    assert!(x(times(n(f32::NAN), n(0.0))).is_nan());
    assert_eq!(times(n(2.0), n(f32::NAN)).to_bits(), 0x7fc0_0000);
}

#[test]
fn arithmetic_agrees_with_the_machine_on_edge_values() {
    for a in edge_values() {
        for b in edge_values() {
            assert!(alike(x(plus(n(a), n(b))), a + b), "{a:e} + {b:e}");
            assert!(alike(x(minus(n(a), n(b))), a - b), "{a:e} - {b:e}");
            assert!(alike(x(times(n(a), n(b))), a * b), "{a:e} * {b:e}");
        }
    }
}

#[test]
fn sums_agree_with_the_machine_on_scattered_patterns() {
    let mut s: u32 = 0x1357_9bdf;
    for round in 0..1_500_000u32 {
        s = s.wrapping_mul(1_664_525).wrapping_add(1_013_904_223);
        let a = f32::from_bits(s);
        s = s.wrapping_mul(1_664_525).wrapping_add(1_013_904_223);
        let mut b = f32::from_bits(s);
        if round % 2 == 1 {
            // An exponent close to that of `a`, so that the terms overlap.
            let lift = (round / 2 % 60) << 23;
            b = f32::from_bits((a.to_bits() & 0x7f80_0000).saturating_sub(lift) | (b.to_bits() & 0x807f_ffff));
        }
        assert!(alike(x(plus(n(a), n(b))), a + b), "{a:e} + {b:e}");
        assert!(alike(x(minus(n(a), n(b))), a - b), "{a:e} - {b:e}");
    }
}

#[test]
fn products_agree_with_the_machine_on_scattered_patterns() {
    let mut s: u32 = 0x2468_ace1;
    for round in 0..1_500_000u32 {
        s = s.wrapping_mul(1_664_525).wrapping_add(1_013_904_223);
        let a = f32::from_bits(s);
        s = s.wrapping_mul(1_664_525).wrapping_add(1_013_904_223);
        let mut b = f32::from_bits(s);
        if round % 3 == 1 {
            // A product near the lower end of the format.
            let e = (a.to_bits() >> 23) & 0xff;
            let want = (127 + 127u32).saturating_sub(e).saturating_sub(110 + round % 50).min(254);
            b = f32::from_bits((want << 23) | (b.to_bits() & 0x807f_ffff));
        }
        if round % 3 == 2 {
            // A product near the upper end of the format.
            let e = (a.to_bits() >> 23) & 0xff;
            let want = (127 + 254u32).saturating_sub(e).saturating_sub(round % 4).min(254);
            b = f32::from_bits((want << 23) | (b.to_bits() & 0x807f_ffff));
        }
        assert!(alike(x(times(n(a), n(b))), a * b), "{a:e} * {b:e}");
    }
}

#[test]
fn quotients_of_known_values() {
    assert_eq!(x(over(n(12.0), n(4.0))), 3.0);
    assert_eq!(x(over(n(1.0), n(3.0))), 1.0f32 / 3.0);
    assert_eq!(over(n(1.0), n(3.0)).to_bits(), 0x3eaa_aaab);
    assert_eq!(x(over(n(-90.0), n(150.0))), -0.6);
    assert_eq!(x(over(n(1.0), n(0.0))), f32::INFINITY);
    assert_eq!(x(over(n(-1.0), n(0.0))), f32::NEG_INFINITY);
    assert_eq!(x(over(n(1.0), n(-0.0))), f32::NEG_INFINITY);
    assert!(x(over(n(0.0), n(0.0))).is_nan());
    assert!(x(over(n(f32::INFINITY), n(f32::NEG_INFINITY))).is_nan());
    assert_eq!(x(over(n(f32::INFINITY), n(-2.0))), f32::NEG_INFINITY);
    assert_eq!(over(n(-2.0), n(f32::INFINITY)).to_bits(), 0x8000_0000);
    assert_eq!(over(n(0.0), n(-5.0)).to_bits(), 0x8000_0000);
    assert_eq!(x(over(n(f32::MAX), n(0.5))), f32::INFINITY);
    assert_eq!(x(over(n(1.0e-45), n(2.0))), 0.0);
    assert_eq!(x(over(n(3.0e-45), n(2.0))), 3.0e-45f32 / 2.0);
    assert_eq!(x(over(n(1.0e-38), n(1.0e10))), 1.0e-38f32 / 1.0e10);
    assert!(x(over(n(f32::NAN), n(1.0))).is_nan());
}

#[test]
fn quotients_agree_with_the_machine() {
    for a in edge_values() {
        for b in edge_values() {
            assert!(alike(x(over(n(a), n(b))), a / b), "{a:e} / {b:e}");
        }
    }
    let mut s: u32 = 0x0f1e_2d3c;
    for round in 0..1_500_000u32 {
        s = s.wrapping_mul(1_664_525).wrapping_add(1_013_904_223);
        let a = f32::from_bits(s);
        s = s.wrapping_mul(1_664_525).wrapping_add(1_013_904_223);
        let mut b = f32::from_bits(s);
        if round % 3 == 1 {
            // A quotient near the lower end of the format.
            let e = (a.to_bits() >> 23) & 0xff;
            let want = (e + 110 + round % 50).min(254);
            b = f32::from_bits((want << 23) | (b.to_bits() & 0x807f_ffff));
        }
        if round % 3 == 2 {
            // A quotient near the upper end of the format.
            let e = (a.to_bits() >> 23) & 0xff;
            let want = e.saturating_sub(125 + round % 4);
            b = f32::from_bits((want << 23) | (b.to_bits() & 0x807f_ffff));
        }
        assert!(alike(x(over(n(a), n(b))), a / b), "{a:e} / {b:e}");
    }
}

#[test]
fn roots_of_known_values() {
    assert_eq!(x(root(n(4.0))), 2.0);
    assert_eq!(x(root(n(100.0))), 10.0);
    assert_eq!(x(root(n(22500.0))), 150.0);
    assert_eq!(x(root(n(8100.0))), 90.0);
    assert_eq!(x(root(n(2.0))), 2.0f32.sqrt());
    assert_eq!(root(n(2.0)).to_bits(), 0x3fb5_04f3);
    assert_eq!(x(root(n(0.01))), 0.01f32.sqrt());
    assert_eq!(x(root(n(1.0e-45))), 1.0e-45f32.sqrt());
    assert_eq!(x(root(n(f32::MAX))), f32::MAX.sqrt());
    assert_eq!(root(n(0.0)).to_bits(), 0);
    assert_eq!(root(n(-0.0)).to_bits(), 0x8000_0000);
    assert_eq!(x(root(n(f32::INFINITY))), f32::INFINITY);
    assert!(x(root(n(-1.0))).is_nan());
    assert!(x(root(n(-1.0e-45))).is_nan());
    assert!(x(root(n(f32::NEG_INFINITY))).is_nan());
    assert!(x(root(n(f32::NAN))).is_nan());
}

#[test]
fn roots_agree_with_the_machine() {
    for a in edge_values() {
        assert!(alike(x(root(n(a))), a.sqrt()), "root of {a:e}");
    }
    let mut s: u32 = 0x5bd1_e995;
    for _ in 0..1_500_000u32 {
        s = s.wrapping_mul(1_664_525).wrapping_add(1_013_904_223);
        let a = f32::from_bits(s);
        assert!(alike(x(root(n(a))), a.sqrt()), "root of {a:e}");
        let b = f32::from_bits(s & 0x7fff_ffff);
        assert_eq!(root(n(b)).to_bits() == b.sqrt().to_bits() || b.is_nan(), true, "root of {b:e}");
    }
    // Every subnormal pattern that is a power of two, and its neighbours.
    for bit in 0..23u32 {
        for delta in 0..3u32 {
            let a = f32::from_bits((1u32 << bit) + delta);
            assert_eq!(root(n(a)).to_bits(), a.sqrt().to_bits());
        }
    }
}
