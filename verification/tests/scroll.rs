use motion_core::scroll::ScrollState;
use motion_core::single::Single;

fn num(x: f32) -> Single {
    Single::from_bits(x.to_bits())
}

fn val(s: Single) -> f32 {
    f32::from_bits(s.to_bits())
}

#[test]
fn new_engine_is_at_rest_at_zero() {
    let s = ScrollState::new();
    assert_eq!(s.current_value().to_bits(), 0);
    assert_eq!(s.velocity_value().to_bits(), 0);
    assert_eq!(s.target_value().to_bits(), 0);
    assert_eq!(s.max_value().to_bits(), 0);
}

#[test]
fn set_target_keeps_a_value_inside_the_range() {
    let mut s = ScrollState::new();
    s.set_max(num(1000.0));
    s.set_target(num(250.5));
    assert_eq!(val(s.target_value()), 250.5);
    s.set_target(num(1000.0));
    assert_eq!(val(s.target_value()), 1000.0);
    s.set_target(num(0.0));
    assert_eq!(val(s.target_value()), 0.0);
}

#[test]
fn set_target_clamps_negative_and_huge_values() {
    let mut s = ScrollState::new();
    s.set_max(num(1000.0));
    s.set_target(num(-5.0));
    assert_eq!(s.target_value().to_bits(), 0);
    s.set_target(num(f32::NEG_INFINITY));
    assert_eq!(s.target_value().to_bits(), 0);
    s.set_target(num(1000.0001));
    assert_eq!(val(s.target_value()), 1000.0);
    s.set_target(num(3.0e38));
    assert_eq!(val(s.target_value()), 1000.0);
    s.set_target(num(f32::INFINITY));
    assert_eq!(val(s.target_value()), 1000.0);
}

#[test]
fn set_target_maps_nan_and_negative_zero_to_positive_zero() {
    let mut s = ScrollState::new();
    s.set_max(num(1000.0));
    s.set_target(num(500.0));
    s.set_target(num(f32::NAN));
    assert_eq!(s.target_value().to_bits(), 0);
    s.set_target(num(500.0));
    s.set_target(num(-0.0));
    assert_eq!(s.target_value().to_bits(), 0);
}

#[test]
fn target_always_lies_in_range_after_set_target() {
    let maxima = [0.0f32, 1.0, 1000.0, 1.0e30, f32::INFINITY, f32::MIN_POSITIVE];
    let inputs = [
        0.0f32,
        -0.0,
        1.0,
        -1.0,
        0.5,
        999.0,
        1000.0,
        1001.0,
        1.0e-40,
        -1.0e-40,
        3.0e38,
        -3.0e38,
        f32::INFINITY,
        f32::NEG_INFINITY,
        f32::NAN,
        -f32::NAN,
    ];
    for m in maxima {
        for y in inputs {
            let mut s = ScrollState::new();
            s.set_max(num(m));
            s.set_target(num(y));
            let t = val(s.target_value());
            let top = val(s.max_value());
            assert!(0.0 <= t && t <= top, "max {m}, y {y}: target {t}");
        }
    }
}

#[test]
fn with_an_empty_range_every_target_is_zero() {
    let mut s = ScrollState::new();
    s.set_target(num(10.0));
    assert_eq!(s.target_value().to_bits(), 0);
}

#[test]
fn set_max_floors_what_is_not_above_zero() {
    let mut s = ScrollState::new();
    s.set_max(num(42.0));
    assert_eq!(val(s.max_value()), 42.0);
    s.set_max(num(-1.0));
    assert_eq!(s.max_value().to_bits(), 0);
    s.set_max(num(42.0));
    s.set_max(num(-0.0));
    assert_eq!(s.max_value().to_bits(), 0);
    s.set_max(num(42.0));
    s.set_max(num(f32::NAN));
    assert_eq!(s.max_value().to_bits(), 0);
    s.set_max(num(f32::NEG_INFINITY));
    assert_eq!(s.max_value().to_bits(), 0);
    s.set_max(num(f32::INFINITY));
    assert_eq!(val(s.max_value()), f32::INFINITY);
    s.set_max(num(1.0e-45));
    assert_eq!(val(s.max_value()), 1.0e-45);
}

#[test]
fn set_max_never_gives_a_negative_max() {
    let inputs = [
        0.0f32,
        -0.0,
        7.5,
        -7.5,
        -1.0e-45,
        3.0e38,
        -3.0e38,
        f32::INFINITY,
        f32::NEG_INFINITY,
        f32::NAN,
        -f32::NAN,
    ];
    for m in inputs {
        let mut s = ScrollState::new();
        s.set_max(num(m));
        let top = val(s.max_value());
        assert!(top >= 0.0, "set_max({m}) gave {top}");
        assert!(!top.is_sign_negative());
    }
}

#[test]
fn shrinking_max_leaves_the_target_until_it_is_set_again() {
    let mut s = ScrollState::new();
    s.set_max(num(1000.0));
    s.set_target(num(800.0));
    s.set_max(num(100.0));
    assert_eq!(val(s.target_value()), 800.0);
    assert_eq!(val(s.max_value()), 100.0);
    s.set_target(num(800.0));
    assert_eq!(val(s.target_value()), 100.0);
}

#[test]
fn set_current_jumps_and_clears_the_velocity() {
    let mut s = ScrollState::new();
    s.set_max(num(1000.0));
    s.set_target(num(1000.0));
    s.tick();
    assert!(val(s.velocity_value()) != 0.0);
    s.set_current(num(640.0));
    assert_eq!(val(s.current_value()), 640.0);
    assert_eq!(s.velocity_value().to_bits(), 0);
    assert_eq!(val(s.target_value()), 1000.0);
    s.set_current(num(-50.0));
    assert_eq!(val(s.current_value()), -50.0);
}

#[test]
fn one_tick_closes_twelve_hundredths_of_the_distance() {
    let mut s = ScrollState::new();
    s.set_max(num(1000.0));
    s.set_target(num(1000.0));
    s.tick();
    assert_eq!(s.current_value().to_bits(), 0x42f0_0000);
    assert_eq!(val(s.current_value()), 120.0);
    assert_eq!(s.velocity_value().to_bits(), 0x42f0_0000);
    s.tick();
    assert_eq!(s.current_value().to_bits(), 0x4361_999a);
    assert_eq!(s.velocity_value().to_bits(), 0x42d3_3333);
}

#[test]
fn ten_ticks_toward_a_thousand() {
    let mut s = ScrollState::new();
    s.set_max(num(1000.0));
    s.set_target(num(1000.0));
    for _ in 0..10 {
        s.tick();
    }
    let c = val(s.current_value());
    assert_eq!(s.current_value().to_bits(), 0x4434_5ff1);
    assert_eq!(s.velocity_value().to_bits(), 0x4217_e8db);
    assert!((c - 721.5).abs() < 0.01, "current {c}");
    let ideal = 1000.0 * (1.0 - 0.88f64.powi(10));
    assert!((c as f64 - ideal).abs() < 1.0e-3);
}

#[test]
fn tick_agrees_with_the_machine_arithmetic() {
    let starts = [0.0f32, -250.0, 999.0, 1.0e6, 123.456, -0.001];
    let targets = [0.0f32, 1.0, 500.0, 777.25, 1000.0];
    for c0 in starts {
        for t in targets {
            let mut s = ScrollState::new();
            s.set_max(num(1000.0));
            s.set_target(num(t));
            s.set_current(num(c0));
            let mut c = c0;
            for n in 0..50 {
                s.tick();
                let delta = (t - c) * 0.12f32;
                c += delta;
                assert_eq!(s.current_value().to_bits(), c.to_bits(), "tick {n} from {c0} to {t}");
                assert_eq!(s.velocity_value().to_bits(), delta.to_bits());
            }
        }
    }
}

#[test]
fn distance_to_the_target_shrinks_geometrically() {
    let cases = [(0.0f32, 1000.0f32), (900.0, 100.0), (-300.0, 0.0), (5.0, 5.0), (2000.0, 640.0)];
    for (c0, t) in cases {
        let mut s = ScrollState::new();
        s.set_max(num(1000.0));
        s.set_target(num(t));
        s.set_current(num(c0));
        let start = (t as f64 - c0 as f64).abs();
        for n in 1..=40 {
            s.tick();
            let left = (t as f64 - val(s.current_value()) as f64).abs();
            let ideal = start * 0.88f64.powi(n);
            assert!((left - ideal).abs() <= 1.0e-3 + 1.0e-5 * start, "n {n}: {left} against {ideal}");
        }
    }
}

#[test]
fn easing_never_overshoots() {
    let mut s = ScrollState::new();
    s.set_max(num(1000.0));
    s.set_target(num(1000.0));
    let mut last = val(s.current_value());
    for _ in 0..300 {
        s.tick();
        let c = val(s.current_value());
        assert!(c >= last && c <= 1000.0);
        last = c;
    }
    assert!((last - 1000.0).abs() < 0.01);
}

#[test]
fn velocity_is_the_step_of_the_last_tick() {
    let mut s = ScrollState::new();
    s.set_max(num(400.0));
    s.set_target(num(400.0));
    s.set_current(num(100.0));
    s.tick();
    assert_eq!(val(s.velocity_value()), (400.0f32 - 100.0) * 0.12f32);
    assert_eq!(val(s.current_value()), 100.0 + (400.0f32 - 100.0) * 0.12f32);
    let before = val(s.current_value());
    s.tick();
    assert_eq!(val(s.velocity_value()), (400.0f32 - before) * 0.12f32);
    assert_eq!(val(s.current_value()), before + val(s.velocity_value()));
}

#[test]
fn a_nan_position_stays_a_nan() {
    let mut s = ScrollState::new();
    s.set_max(num(10.0));
    s.set_target(num(5.0));
    s.set_current(num(f32::NAN));
    s.tick();
    assert!(val(s.current_value()).is_nan());
    assert!(val(s.velocity_value()).is_nan());
    assert_eq!(val(s.target_value()), 5.0);
}

#[test]
fn at_the_target_a_tick_moves_nothing() {
    for t in [0.0f32, 1.0, 333.25, 1000.0] {
        let mut s = ScrollState::new();
        s.set_max(num(1000.0));
        s.set_target(num(t));
        s.set_current(num(t));
        for _ in 0..10 {
            s.tick();
            assert_eq!(s.current_value().to_bits(), t.to_bits());
            assert_eq!(s.velocity_value().to_bits(), 0);
        }
    }
}

#[test]
fn a_tick_moves_toward_the_target_from_either_side() {
    let mut x: u32 = 0x9e37_79b9;
    let mut next = || {
        x = x.wrapping_mul(1_664_525).wrapping_add(1_013_904_223);
        (x >> 8) as f32 / 16_777_216.0
    };
    for _ in 0..20_000 {
        let max = next() * 1.0e6;
        let t = next() * max;
        let c = (next() - 0.5) * 4.0e6;
        let mut s = ScrollState::new();
        s.set_max(num(max));
        s.set_target(num(t));
        s.set_current(num(c));
        let t = val(s.target_value());
        s.tick();
        let after = val(s.current_value());
        if c <= t {
            assert!(c <= after && after <= t, "{c} to {after}, target {t}");
        } else {
            assert!(t <= after && after <= c, "{c} to {after}, target {t}");
        }
        assert!(2.0 * val(s.velocity_value()).abs() <= (t - c).abs());
    }
}
