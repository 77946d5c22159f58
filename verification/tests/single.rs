use motion_core::single::Single;

fn of(x: f32) -> Single {
    Single::from_bits(x.to_bits())
}

fn samples() -> Vec<f32> {
    vec![
        0.0,
        -0.0,
        1.0,
        -1.0,
        0.01,
        0.1,
        150.0,
        22500.0,
        -22500.0,
        1.0e-45,
        -1.0e-45,
        1.0e-39,
        f32::MIN_POSITIVE,
        -f32::MIN_POSITIVE,
        f32::MAX,
        f32::MIN,
        f32::INFINITY,
        f32::NEG_INFINITY,
        f32::NAN,
        -f32::NAN,
        f32::from_bits(0x7f80_0001),
        f32::from_bits(0xffff_ffff),
    ]
}

#[test]
fn bits_pass_through() {
    assert_eq!(Single::from_bits(0x3f80_0000).to_bits(), 0x3f80_0000);
    assert_eq!(Single::from_bits(0).bits, 0);
    assert_eq!(Single { bits: 0xdead_beef }.to_bits(), 0xdead_beef);
}

#[test]
fn order_agrees_with_the_machine() {
    for a in samples() {
        for b in samples() {
            assert_eq!(of(a).lt(of(b)), a < b, "{a} < {b}");
            assert_eq!(of(a).gt(of(b)), a > b, "{a} > {b}");
            assert_eq!(of(a).le(of(b)), a <= b, "{a} <= {b}");
            assert_eq!(of(a).ge(of(b)), a >= b, "{a} >= {b}");
        }
    }
}

#[test]
fn order_agrees_with_the_machine_on_scattered_patterns() {
    let mut x: u32 = 0x1234_5678;
    let mut y: u32 = 0x9e37_79b9;
    for _ in 0..200_000 {
        x = x.wrapping_mul(1_664_525).wrapping_add(1_013_904_223);
        y = y.wrapping_mul(22_695_477).wrapping_add(1);
        let (a, b) = (f32::from_bits(x), f32::from_bits(y));
        assert_eq!(Single::from_bits(x).lt(Single::from_bits(y)), a < b);
        assert_eq!(Single::from_bits(x).le(Single::from_bits(y)), a <= b);
        assert_eq!(Single::from_bits(x).gt(Single::from_bits(y)), a > b);
        assert_eq!(Single::from_bits(x).ge(Single::from_bits(y)), a >= b);
    }
}

#[test]
fn the_two_zeros_are_one_number() {
    assert!(!of(-0.0).lt(of(0.0)));
    assert!(!of(0.0).lt(of(-0.0)));
    assert!(of(-0.0).le(of(0.0)));
    assert!(of(0.0).ge(of(-0.0)));
    assert_ne!(of(-0.0), of(0.0));
}

#[test]
fn a_nan_is_in_no_order() {
    for a in samples() {
        assert!(!of(a).lt(of(f32::NAN)));
        assert!(!of(f32::NAN).lt(of(a)));
        assert!(!of(a).le(of(f32::NAN)));
        assert!(!of(f32::NAN).ge(of(a)));
    }
}

#[test]
fn classes_agree_with_the_machine() {
    for a in samples() {
        assert_eq!(of(a).nan(), a.is_nan(), "{a}");
        assert_eq!(of(a).finite(), a.is_finite(), "{a}");
        assert_eq!(of(a).sign_is_negative(), a.is_sign_negative(), "{a}");
    }
}

#[test]
fn small_whole_numbers_are_exact() {
    assert_eq!(Single::from_whole(0).to_bits(), 0);
    assert_eq!(Single::from_whole(1).to_bits(), 0x3f80_0000);
    assert_eq!(Single::from_whole(2).to_bits(), 0x4000_0000);
    assert_eq!(Single::from_whole(3).to_bits(), 0x4040_0000);
    assert_eq!(Single::from_whole(100).to_bits(), 0x42c8_0000);
    assert_eq!(Single::from_whole(0x7f_ffff).to_bits(), 0x4aff_fffe);
    assert_eq!(Single::from_whole(0x80_0000).to_bits(), 0x4b00_0000);
    assert_eq!(Single::from_whole(0xff_ffff).to_bits(), 0x4b7f_ffff);
    assert_eq!(Single::from_whole(0x100_0000).to_bits(), 0x4b80_0000);
    for n in 0..70_000u64 {
        assert_eq!(Single::from_whole(n).to_bits(), (n as f32).to_bits());
    }
}

#[test]
fn large_whole_numbers_round_to_nearest_even() {
    // 2^24 + 1 lies halfway between 2^24 and 2^24 + 2: the even one wins.
    assert_eq!(Single::from_whole(0x100_0001).to_bits(), 0x4b80_0000);
    assert_eq!(Single::from_whole(0x100_0002).to_bits(), 0x4b80_0001);
    // 2^24 + 3 lies halfway between 2^24 + 2 and 2^24 + 4: the even one wins.
    assert_eq!(Single::from_whole(0x100_0003).to_bits(), 0x4b80_0002);
    // Rounding up may carry into the next power of two.
    assert_eq!(Single::from_whole(0x1ff_ffff).to_bits(), 0x4c00_0000);
    assert_eq!(Single::from_whole(u32::MAX as u64).to_bits(), 0x4f80_0000);
    assert_eq!(Single::from_whole(u64::MAX).to_bits(), 0x5f80_0000);
    assert_eq!(Single::from_whole(1u64 << 63).to_bits(), 0x5f00_0000);
}

#[test]
fn whole_numbers_agree_with_the_machine() {
    let mut x: u64 = 0x0123_4567_89ab_cdef;
    for round in 0..200_000u32 {
        x = x.wrapping_mul(6_364_136_223_846_793_005).wrapping_add(1_442_695_040_888_963_407);
        let n = x >> (round % 64);
        assert_eq!(Single::from_whole(n).to_bits(), (n as f32).to_bits(), "{n}");
    }
    for shift in 0..64u32 {
        for delta in 0..5u64 {
            let base = 1u64 << shift;
            for n in [base.wrapping_sub(delta), base + delta, base + (base >> 1) + delta] {
                assert_eq!(Single::from_whole(n).to_bits(), (n as f32).to_bits(), "{n}");
            }
        }
    }
}

#[test]
fn floor_of_known_values() {
    let cases = [
        (0.0f32, 0.0f32),
        (0.5, 0.0),
        (0.99999994, 0.0),
        (1.0, 1.0),
        (1.1, 1.0),
        (2.9, 2.0),
        (-0.5, -1.0),
        (-1.0, -1.0),
        (-1.0000001, -2.0),
        (-1.5, -2.0),
        (-7.999, -8.0),
        (8388607.5, 8388607.0),
        (-8388607.5, -8388608.0),
        (8388608.0, 8388608.0),
        (1.0e-45, 0.0),
        (-1.0e-45, -1.0),
        (43758.547, 43758.0),
        (3.0e38, 3.0e38),
        (f32::INFINITY, f32::INFINITY),
        (f32::NEG_INFINITY, f32::NEG_INFINITY),
    ];
    for (x, want) in cases {
        assert_eq!(of(x).floor().to_bits(), want.to_bits(), "floor of {x}");
    }
    assert_eq!(of(-0.0).floor().to_bits(), 0x8000_0000);
    assert_eq!(of(0.25).floor().to_bits(), 0);
    assert_eq!(of(f32::NAN).floor().to_bits(), f32::NAN.to_bits());
}

#[test]
fn floor_agrees_with_the_machine() {
    let mut x: u32 = 0x6b8b_4567;
    for _ in 0..400_000 {
        x = x.wrapping_mul(1_664_525).wrapping_add(1_013_904_223);
        let a = f32::from_bits(x);
        let got = f32::from_bits(Single::from_bits(x).floor().to_bits());
        assert!(got.to_bits() == a.floor().to_bits() || (got.is_nan() && a.is_nan()), "{a}");
        // Patterns around the numbers that have a fraction.
        let b = f32::from_bits(0x3f00_0000 + (x >> 4) % 0x0d00_0000 | (x & 0x8000_0000));
        assert_eq!(Single::from_bits(b.to_bits()).floor().to_bits(), b.floor().to_bits(), "{b}");
    }
}
