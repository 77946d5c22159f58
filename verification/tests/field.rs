use motion_core::field::{advance_particle, frame_scale_of, repel, AnimationEngine, Particle};
use motion_core::single::Single;

fn s(x: f32) -> Single {
    Single::from_bits(x.to_bits())
}

fn f(x: Single) -> f32 {
    f32::from_bits(x.to_bits())
}

fn floats(buffer: &[u32]) -> Vec<f32> {
    buffer.iter().map(|b| f32::from_bits(*b)).collect()
}

fn same(a: f32, b: f32) -> bool {
    a.to_bits() == b.to_bits() || (a.is_nan() && b.is_nan())
}

/// The step of one particle in the machine's own arithmetic.
fn machine_step(p: [f32; 6], dt: f32, mouse_x: f32, mouse_y: f32) -> [f32; 6] {
    let [px, py, mut vx, mut vy, hx, hy] = p;
    let dt = if dt > 0.1 { 0.1 } else { dt };
    let dt_scale = dt * 60.0;
    let spring_fx = (hx - px) * 0.015f32;
    let spring_fy = (hy - py) * 0.015f32;
    let dx = px - mouse_x;
    let dy = py - mouse_y;
    let dist_sq = dx * dx + dy * dy;
    let radius_sq = 150.0f32 * 150.0f32;
    let (mouse_fx, mouse_fy) = if dist_sq < radius_sq && dist_sq > 0.01 {
        let dist = dist_sq.sqrt();
        let force = (1.0 - dist / 150.0f32) * 8.0f32;
        (dx / dist * force, dy / dist * force)
    } else {
        (0.0, 0.0)
    };
    vx += (spring_fx + mouse_fx) * dt_scale;
    vy += (spring_fy + mouse_fy) * dt_scale;
    vx *= 0.92f32;
    vy *= 0.92f32;
    let nx = px + ((px + vx) - px) * dt_scale;
    let ny = py + ((py + vy) - py) * dt_scale;
    [nx, ny, vx, vy, hx, hy]
}

fn particle(p: [f32; 6]) -> Particle {
    Particle { px: s(p[0]), py: s(p[1]), vx: s(p[2]), vy: s(p[3]), hx: s(p[4]), hy: s(p[5]) }
}

fn parts(p: Particle) -> [f32; 6] {
    [f(p.px), f(p.py), f(p.vx), f(p.vy), f(p.hx), f(p.hy)]
}

#[test]
fn new_field_has_two_slots_per_particle() {
    for count in [0usize, 1, 2, 17, 1000] {
        let e = AnimationEngine::new(count, s(800.0), s(600.0));
        assert_eq!(e.len(), count);
        assert_eq!(e.positions_ptr().len(), 2 * count);
        assert_eq!(e.velocities_ptr().len(), 2 * count);
    }
}

#[test]
fn new_field_is_at_rest_on_the_hashed_anchors() {
    let e = AnimationEngine::new(4, s(100.0), s(100.0));
    assert_eq!(
        floats(e.positions_ptr()),
        vec![11.23046875, 75.390625, 41.40625, 93.359375, 99.07989501953125, 12.890625, 96.484375, 79.296875]
    );
    assert_eq!(e.positions_ptr()[0], 0x4133_b000);
    assert_eq!(e.positions_ptr()[1], 0x4296_c800);
    assert!(e.velocities_ptr().iter().all(|v| *v == 0));
}

#[test]
fn new_field_lies_inside_its_size() {
    let e = AnimationEngine::new(5000, s(1920.0), s(1080.0));
    let p = floats(e.positions_ptr());
    for i in 0..5000 {
        assert!((0.0..=1920.0).contains(&p[2 * i]));
        assert!((0.0..=1080.0).contains(&p[2 * i + 1]));
    }
}

#[test]
fn equal_arguments_give_equal_fields() {
    let a = AnimationEngine::new(500, s(1280.0), s(720.0));
    let b = AnimationEngine::new(500, s(1280.0), s(720.0));
    assert_eq!(a.positions_ptr(), b.positions_ptr());
    assert_eq!(a.velocities_ptr(), b.velocities_ptr());
    let mut a = a;
    let mut b = b;
    a.update(s(0.016), s(300.0), s(200.0));
    b.update(s(0.016), s(300.0), s(200.0));
    assert_eq!(a.positions_ptr(), b.positions_ptr());
    assert_eq!(a.velocities_ptr(), b.velocities_ptr());
}

#[test]
fn a_particle_keeps_its_anchor_when_more_are_added() {
    let small = AnimationEngine::new(10, s(640.0), s(480.0));
    let large = AnimationEngine::new(50, s(640.0), s(480.0));
    assert_eq!(small.positions_ptr(), &large.positions_ptr()[..20]);
}

#[test]
fn an_empty_field_takes_every_call() {
    let mut e = AnimationEngine::new(0, s(100.0), s(100.0));
    e.update(s(0.016), s(1.0), s(1.0));
    e.resize(s(5.0), s(5.0));
    assert_eq!(e.len(), 0);
    assert!(e.positions_ptr().is_empty());
    assert!(e.velocities_ptr().is_empty());
}

#[test]
fn resize_moves_no_particle() {
    let mut e = AnimationEngine::new(64, s(800.0), s(600.0));
    e.update(s(0.016), s(400.0), s(300.0));
    e.update(s(0.016), s(410.0), s(300.0));
    let positions = e.positions_ptr().to_vec();
    let velocities = e.velocities_ptr().to_vec();
    e.resize(s(1600.0), s(1200.0));
    assert_eq!(e.positions_ptr(), &positions[..]);
    assert_eq!(e.velocities_ptr(), &velocities[..]);
    assert_eq!(e.len(), 64);
}

#[test]
fn after_resize_particles_drift_to_the_new_anchors() {
    let mut e = AnimationEngine::new(32, s(100.0), s(100.0));
    e.resize(s(200.0), s(50.0));
    let anchors = floats(AnimationEngine::new(32, s(200.0), s(50.0)).positions_ptr());
    let start = floats(e.positions_ptr());
    assert!(start.iter().zip(&anchors).any(|(a, b)| a != b));
    for _ in 0..2000 {
        e.update(s(0.016), s(-100000.0), s(-100000.0));
    }
    let end = floats(e.positions_ptr());
    for (at, anchor) in end.iter().zip(&anchors) {
        assert!((at - anchor).abs() < 0.01, "{at} against {anchor}");
    }
}

#[test]
fn resize_to_the_same_size_changes_nothing() {
    let mut e = AnimationEngine::new(16, s(300.0), s(300.0));
    let before = e.positions_ptr().to_vec();
    e.resize(s(300.0), s(300.0));
    e.update(s(0.016), s(-5000.0), s(-5000.0));
    assert_eq!(e.positions_ptr(), &before[..]);
    assert!(e.velocities_ptr().iter().all(|v| f32::from_bits(*v) == 0.0));
}

#[test]
fn frame_scale_of_known_steps() {
    assert_eq!(f(frame_scale_of(s(0.016))), 0.016f32 * 60.0);
    assert_eq!(f(frame_scale_of(s(0.1))), 0.1f32 * 60.0);
    assert_eq!(f(frame_scale_of(s(0.0))), 0.0);
    assert_eq!(f(frame_scale_of(s(0.05))), 3.0);
    assert_eq!(frame_scale_of(s(0.1)).to_bits(), 0x40c0_0000);
}

#[test]
fn a_long_step_counts_as_a_tenth_of_a_second() {
    for dt in [0.10000001f32, 0.5, 1.0, 1000.0, f32::MAX, f32::INFINITY] {
        assert_eq!(frame_scale_of(s(dt)), frame_scale_of(s(0.1)), "{dt}");
    }
    let mut a = AnimationEngine::new(20, s(500.0), s(500.0));
    let mut b = AnimationEngine::new(20, s(500.0), s(500.0));
    a.update(s(1000.0), s(250.0), s(250.0));
    b.update(s(0.1), s(250.0), s(250.0));
    assert_eq!(a.positions_ptr(), b.positions_ptr());
    assert_eq!(a.velocities_ptr(), b.velocities_ptr());
}

#[test]
fn a_negative_or_nan_step_is_not_held() {
    assert_eq!(f(frame_scale_of(s(-1.0))), -60.0);
    assert!(f(frame_scale_of(s(f32::NAN))).is_nan());
}

#[test]
fn push_of_known_values() {
    // Pointer 75 to the left: half the reach, so half the strength, along +x.
    let (x, y) = repel(s(75.0), s(0.0), s(0.0), s(0.0));
    assert_eq!(f(x), 4.0);
    assert_eq!(f(y), 0.0);
    // Pointer 90 away along a 3-4-5 triangle.
    let (x, y) = repel(s(54.0), s(-72.0), s(0.0), s(0.0));
    let force = (1.0f32 - 90.0 / 150.0) * 8.0;
    assert_eq!(f(x), 54.0f32 / 90.0 * force);
    assert_eq!(f(y), -72.0f32 / 90.0 * force);
    assert!((f(x) - 1.92).abs() < 1.0e-6 && (f(y) + 2.56).abs() < 1.0e-6);
}

#[test]
fn no_push_at_the_rim_or_beyond() {
    for (px, py, mx, my) in [
        (150.0f32, 0.0f32, 0.0f32, 0.0f32),
        (0.0, -150.0, 0.0, 0.0),
        (90.0, 120.0, 0.0, 0.0),
        (151.0, 0.0, 0.0, 0.0),
        (500.0, 500.0, 100.0, 100.0),
        (10.0, 10.0, -1000.0, -1000.0),
        (0.0, 0.0, 3.0e38, 0.0),
        (-3.0e38, 0.0, 3.0e38, 0.0),
        (0.0, 0.0, f32::INFINITY, 0.0),
    ] {
        let (x, y) = repel(s(px), s(py), s(mx), s(my));
        assert_eq!(x.to_bits(), 0, "{px} {py} {mx} {my}");
        assert_eq!(y.to_bits(), 0, "{px} {py} {mx} {my}");
    }
    let (x, _) = repel(s(149.99), s(0.0), s(0.0), s(0.0));
    assert!(f(x) > 0.0);
}

#[test]
fn out_of_reach_the_step_is_the_springs_alone() {
    let p = [150.0f32, 0.0, 0.25, -0.5, 140.0, 30.0];
    let q = parts(advance_particle(particle(p), s(1.0), s(0.0), s(0.0)));
    assert_eq!(q[2], (0.25f32 + ((140.0f32 - 150.0) * 0.015f32 + 0.0) * 1.0) * 0.92f32);
    assert_eq!(q[3], (-0.5f32 + ((30.0f32 - 0.0) * 0.015f32 + 0.0) * 1.0) * 0.92f32);
    let far = parts(advance_particle(particle(p), s(1.0), s(9000.0), s(9000.0)));
    assert_eq!(q, far);
}

#[test]
fn no_push_with_the_pointer_on_the_particle() {
    for (dx, dy) in [(0.0f32, 0.0f32), (0.1, 0.0), (0.0, -0.1), (0.05, 0.05), (1.0e-30, 0.0)] {
        let (x, y) = repel(s(40.0 + dx), s(40.0 + dy), s(40.0), s(40.0));
        assert_eq!(x.to_bits(), 0);
        assert_eq!(y.to_bits(), 0);
    }
    let (x, _) = repel(s(40.5), s(40.0), s(40.0), s(40.0));
    assert!(f(x) > 7.9);
}

#[test]
fn no_push_where_the_distance_is_a_nan() {
    for (mx, my) in [(f32::NAN, 0.0f32), (0.0, f32::NAN), (f32::NAN, f32::NAN)] {
        let (x, y) = repel(s(10.0), s(10.0), s(mx), s(my));
        assert_eq!(x.to_bits(), 0);
        assert_eq!(y.to_bits(), 0);
    }
}

#[test]
fn one_step_of_known_values() {
    // At rest, 10 right of the anchor, pointer far away, scale one.
    let p = [110.0f32, 50.0, 0.0, 0.0, 100.0, 50.0];
    let q = parts(advance_particle(particle(p), s(1.0), s(-1000.0), s(-1000.0)));
    let vx = (0.0f32 + (-10.0f32 * 0.015f32) * 1.0) * 0.92f32;
    assert_eq!(q[2], vx);
    assert!((q[2] + 0.138).abs() < 1.0e-6);
    assert_eq!(q[0], 110.0 + ((110.0 + vx) - 110.0) * 1.0);
    assert_eq!(q[1], 50.0);
    assert_eq!(q[3], 0.0);
    assert_eq!(q[4], 100.0);
    assert_eq!(q[5], 50.0);
}

#[test]
fn the_scale_enters_twice() {
    // Scale two: the force doubles in the velocity, and the position moves by
    // twice that velocity.
    let p = [110.0f32, 50.0, 0.0, 0.0, 100.0, 50.0];
    let q = parts(advance_particle(particle(p), s(2.0), s(-1000.0), s(-1000.0)));
    let vx = (-10.0f32 * 0.015f32 * 2.0) * 0.92f32;
    assert_eq!(q[2], vx);
    assert_eq!(q[0], 110.0 + ((110.0 + vx) - 110.0) * 2.0);
    assert!((q[0] - (110.0 - 0.552)).abs() < 1.0e-4);
    // Scale zero: nothing moves, but the velocity is still damped.
    let p = [110.0f32, 50.0, 1.0, -2.0, 100.0, 50.0];
    let q = parts(advance_particle(particle(p), s(0.0), s(-1000.0), s(-1000.0)));
    assert_eq!(q, [110.0, 50.0, 0.92, -2.0 * 0.92f32, 100.0, 50.0]);
}

#[test]
fn a_step_agrees_with_the_machine_arithmetic() {
    let mut x: u32 = 0x51ed_270b;
    let mut next = |span: f32| {
        x = x.wrapping_mul(1_664_525).wrapping_add(1_013_904_223);
        ((x >> 8) as f32 / 16_777_216.0 - 0.5) * span
    };
    for round in 0..60_000u32 {
        let p = [next(800.0), next(800.0), next(20.0), next(20.0), next(800.0), next(800.0)];
        let (mx, my) = (p[0] + next(400.0), p[1] + next(400.0));
        let dt = if round % 7 == 0 { 1000.0 } else { next(0.3).abs() };
        let want = machine_step(p, dt, mx, my);
        let got = parts(advance_particle(particle(p), frame_scale_of(s(dt)), s(mx), s(my)));
        assert_eq!(got, want, "{p:?} dt {dt} pointer {mx} {my}");
    }
}

#[test]
fn a_step_agrees_with_the_machine_on_scattered_patterns() {
    let mut x: u32 = 0x7f4a_7c15;
    let mut next = || {
        x = x.wrapping_mul(1_664_525).wrapping_add(1_013_904_223);
        f32::from_bits(x)
    };
    for _ in 0..60_000u32 {
        let p = [next(), next(), next(), next(), next(), next()];
        let (mx, my, dt) = (next(), next(), next());
        let want = machine_step(p, dt, mx, my);
        let got = parts(advance_particle(particle(p), frame_scale_of(s(dt)), s(mx), s(my)));
        for k in 0..6 {
            assert!(same(got[k], want[k]), "{p:?} dt {dt} pointer {mx} {my}: slot {k}");
        }
    }
}

#[test]
fn update_agrees_with_the_machine_over_many_frames() {
    let mut e = AnimationEngine::new(200, s(800.0), s(600.0));
    let anchors = floats(e.positions_ptr());
    let mut positions = anchors.clone();
    let mut velocities = vec![0.0f32; 400];
    for frame in 0..120u32 {
        let dt = [0.016f32, 0.033, 0.008, 0.25][(frame % 4) as usize];
        let mx = 400.0 + 300.0 * (frame as f32 * 0.1).cos();
        let my = 300.0 + 200.0 * (frame as f32 * 0.13).sin();
        e.update(s(dt), s(mx), s(my));
        for i in 0..200 {
            let p = [
                positions[2 * i],
                positions[2 * i + 1],
                velocities[2 * i],
                velocities[2 * i + 1],
                anchors[2 * i],
                anchors[2 * i + 1],
            ];
            let q = machine_step(p, dt, mx, my);
            positions[2 * i] = q[0];
            positions[2 * i + 1] = q[1];
            velocities[2 * i] = q[2];
            velocities[2 * i + 1] = q[3];
        }
        assert_eq!(floats(e.positions_ptr()), positions, "frame {frame}");
        assert_eq!(floats(e.velocities_ptr()), velocities, "frame {frame}");
    }
    assert!(velocities.iter().any(|v| *v != 0.0));
}

#[test]
fn update_moves_each_particle_by_itself() {
    let mut all = AnimationEngine::new(40, s(640.0), s(480.0));
    let start = floats(all.positions_ptr());
    all.update(s(0.016), s(320.0), s(240.0));
    let after = floats(all.positions_ptr());
    let speed = floats(all.velocities_ptr());
    for i in 0..40 {
        let p = [start[2 * i], start[2 * i + 1], 0.0, 0.0, start[2 * i], start[2 * i + 1]];
        let q = parts(advance_particle(particle(p), frame_scale_of(s(0.016)), s(320.0), s(240.0)));
        assert_eq!([after[2 * i], after[2 * i + 1], speed[2 * i], speed[2 * i + 1]], [q[0], q[1], q[2], q[3]]);
    }
}

#[test]
fn update_keeps_the_buffers_in_place_and_length() {
    let mut e = AnimationEngine::new(128, s(800.0), s(600.0));
    let at = e.positions_ptr().as_ptr();
    let speed_at = e.velocities_ptr().as_ptr();
    for frame in 0..50 {
        e.update(s(0.016), s(frame as f32 * 10.0), s(300.0));
        if frame % 10 == 0 {
            e.resize(s(800.0 + frame as f32), s(600.0));
        }
        assert_eq!(e.positions_ptr().as_ptr(), at);
        assert_eq!(e.velocities_ptr().as_ptr(), speed_at);
        assert_eq!(e.positions_ptr().len(), 256);
        assert_eq!(e.velocities_ptr().len(), 256);
        assert_eq!(e.len(), 128);
    }
}

#[test]
fn one_update_leaves_everything_finite() {
    let steps = [0.0f32, 1.0e-6, 0.016, 0.1, 0.5, 1.0, 60.0, 1000.0];
    let fresh = AnimationEngine::new(300, s(1920.0), s(1080.0));
    let start = floats(fresh.positions_ptr());
    let mut pointers = vec![
        (0.0f32, 0.0f32),
        (-1000.0, -1000.0),
        (960.0, 540.0),
        (1.0e30, -1.0e30),
        (f32::MAX, f32::MAX),
        (f32::MIN, f32::MAX),
    ];
    for i in [0usize, 1, 150, 299] {
        pointers.push((start[2 * i], start[2 * i + 1]));
        pointers.push((start[2 * i] + 0.05, start[2 * i + 1]));
        pointers.push((start[2 * i] + 1.0e-3, start[2 * i + 1] - 1.0e-3));
    }
    for dt in steps {
        for (mx, my) in &pointers {
            let mut e = AnimationEngine::new(300, s(1920.0), s(1080.0));
            e.update(s(dt), s(*mx), s(*my));
            assert!(floats(e.positions_ptr()).iter().all(|v| v.is_finite()), "dt {dt} pointer {mx} {my}");
            assert!(floats(e.velocities_ptr()).iter().all(|v| v.is_finite()), "dt {dt} pointer {mx} {my}");
        }
    }
}

#[test]
fn many_updates_under_a_moving_pointer_stay_finite() {
    let mut e = AnimationEngine::new(100, s(800.0), s(600.0));
    for frame in 0..3000u32 {
        let dt = if frame % 50 == 0 { 1000.0 } else { 0.016 };
        let mx = (frame % 800) as f32;
        let my = (frame * 7 % 600) as f32;
        e.update(s(dt), s(mx), s(my));
    }
    assert!(floats(e.positions_ptr()).iter().all(|v| v.is_finite()));
    assert!(floats(e.velocities_ptr()).iter().all(|v| v.is_finite()));
}

#[test]
fn a_particle_under_its_spring_alone_stays_on_its_anchor() {
    let mut e = AnimationEngine::new(1, s(100.0), s(100.0));
    let anchor = floats(e.positions_ptr());
    assert_eq!(anchor, vec![11.23046875, 75.390625]);
    for _ in 0..500 {
        e.update(s(0.016), s(-1000.0), s(-1000.0));
        assert_eq!(floats(e.positions_ptr()), anchor);
        assert!(floats(e.velocities_ptr()).iter().all(|v| *v == 0.0));
    }
}

#[test]
fn a_pushed_particle_returns_to_its_anchor_and_comes_to_rest() {
    let mut e = AnimationEngine::new(1, s(100.0), s(100.0));
    let anchor = floats(e.positions_ptr());
    for _ in 0..30 {
        e.update(s(0.016), s(anchor[0] - 20.0), s(anchor[1] + 5.0));
    }
    let pushed = floats(e.positions_ptr());
    assert!(pushed[0] > anchor[0] + 1.0, "pushed to {pushed:?}");
    let mut last = f32::MAX;
    for round in 0..40 {
        for _ in 0..50 {
            e.update(s(0.016), s(-1000.0), s(-1000.0));
        }
        let at = floats(e.positions_ptr());
        let off = (at[0] - anchor[0]).hypot(at[1] - anchor[1]);
        if round % 8 == 7 {
            assert!(off < last || off < 1.0e-3, "round {round}: {off} after {last}");
            last = off;
        }
    }
    let at = floats(e.positions_ptr());
    let speed = floats(e.velocities_ptr());
    assert!((at[0] - anchor[0]).abs() < 1.0e-3 && (at[1] - anchor[1]).abs() < 1.0e-3, "at {at:?}");
    assert!(speed[0].abs() < 1.0e-4 && speed[1].abs() < 1.0e-4, "speed {speed:?}");
}

#[test]
fn the_push_is_never_large() {
    let mut x: u32 = 0x3c6e_f372;
    let mut next = || {
        x = x.wrapping_mul(1_664_525).wrapping_add(1_013_904_223);
        f32::from_bits(x)
    };
    for round in 0..200_000u32 {
        let (px, py) = (next(), next());
        let (mx, my) = if round % 2 == 0 {
            (next(), next())
        } else {
            // A pointer within reach of the particle.
            (px + (next() % 1.0) * 200.0, py + (next() % 1.0) * 200.0)
        };
        let (rx, ry) = repel(s(px), s(py), s(mx), s(my));
        assert!(f(rx).abs() <= 16_777_216.0 && f(ry).abs() <= 16_777_216.0, "{px} {py} {mx} {my}");
        assert!(f(rx).abs() <= 8.5 && f(ry).abs() <= 8.5, "{px} {py} {mx} {my}: {} {}", f(rx), f(ry));
    }
}

#[test]
fn a_step_leaves_a_bounded_particle_finite() {
    let mut x: u32 = 0x1f83_d9ab;
    let mut raw = || {
        x = x.wrapping_mul(1_664_525).wrapping_add(1_013_904_223);
        x
    };
    // Any pattern below 2^115 in absolute value: exponent field up to 241.
    let mut bounded = |bits: u32| f32::from_bits((bits & 0x807f_ffff) | (((bits >> 23) & 0xff) % 242) << 23);
    for round in 0..200_000u32 {
        let p = [
            bounded(raw()),
            bounded(raw()),
            bounded(raw()),
            bounded(raw()),
            bounded(raw()),
            bounded(raw()),
        ];
        let (mx, my) = match round % 4 {
            0 => (f32::from_bits(raw()), f32::from_bits(raw())),
            1 => (p[0], p[1]),
            2 => (p[0] + 0.05, p[1] - 0.05),
            _ => (p[0] + (raw() % 300) as f32 - 150.0, p[1] + (raw() % 300) as f32 - 150.0),
        };
        let dt = match round % 5 {
            0 => 0.0,
            1 => 1000.0,
            2 => f32::INFINITY,
            3 => 0.016,
            _ => f32::from_bits(raw() & 0x7f7f_ffff),
        };
        let q = parts(advance_particle(particle(p), frame_scale_of(s(dt)), s(mx), s(my)));
        assert!(q[0].is_finite() && q[1].is_finite() && q[2].is_finite() && q[3].is_finite(), "{p:?} dt {dt} pointer {mx} {my}: {q:?}");
    }
}

#[test]
fn the_scale_of_a_step_is_at_most_six() {
    let mut x: u32 = 0x7654_3210;
    for _ in 0..200_000 {
        x = x.wrapping_mul(1_664_525).wrapping_add(1_013_904_223);
        let dt = f32::from_bits(x & 0x7fff_ffff);
        let scale = f(frame_scale_of(s(dt)));
        if dt.is_nan() {
            assert!(scale.is_nan());
        } else {
            assert!((0.0..=6.0).contains(&scale), "dt {dt}: {scale}");
        }
    }
}
