use damped_spring::binary32::Binary32;
use damped_spring::coefficients::{arguments, Arguments, Coefficients, Waves};
use damped_spring::regime::Regime;
use damped_spring::spring::{Point, Spring, SpringVec};

fn f(x: f32) -> Binary32 {
    Binary32 { bits: x.to_bits() }
}

fn v(x: Binary32) -> f32 {
    f32::from_bits(x.bits)
}

fn point(x: f32, y: f32) -> Point {
    Point { x: f(x), y: f(y) }
}

/// What a host does between `arguments` and `update`.
fn evaluate(a: Arguments) -> Waves {
    Waves {
        exp_first: f(v(a.exp_first).exp()),
        exp_second: f(v(a.exp_second).exp()),
        cos: f(v(a.angle).cos()),
        sin: f(v(a.angle).sin()),
    }
}

fn tick(spring: &mut Spring, dt: f32) {
    let waves = evaluate(spring.arguments(f(dt)));
    spring.update(f(dt), waves);
}

fn tick_vec(spring: &mut SpringVec, dt: f32) {
    let waves = evaluate(spring.arguments(f(dt)));
    spring.update(f(dt), waves);
}

/// The closed form in the arithmetic of the machine.
fn machine_tick(w: f32, z: f32, target: f32, position: f32, velocity: f32, dt: f32) -> (f32, f32) {
    let epsilon = 0.0001f32;
    if w < epsilon {
        return (position, velocity);
    }
    let (pos_coef, pos_vel_coef, vel_pos_coef, vel_coef);
    if z > 1.0 + epsilon {
        let za = -w * z;
        let zb = w * f32::sqrt(z * z - 1.0);
        let z1 = za - zb;
        let z2 = za + zb;
        let e1 = f32::exp(z1 * dt);
        let e2 = f32::exp(z2 * dt);
        let inv_two_zb = 1.0 / (2.0 * zb);
        let e1_over = e1 * inv_two_zb;
        let e2_over = e2 * inv_two_zb;
        let z1e1_over = z1 * e1_over;
        let z2e2_over = z2 * e2_over;
        pos_coef = e1_over * z2 - z2e2_over + e2;
        pos_vel_coef = -e1_over + e2_over;
        vel_pos_coef = (z1e1_over - z2e2_over + e2) * z2;
        vel_coef = -z1e1_over + z2e2_over;
    } else if z < 1.0 - epsilon {
        let omega_zeta = w * z;
        let alpha = w * f32::sqrt(1.0 - (z * z));
        let exp_term = f32::exp(-omega_zeta * dt);
        let cos_term = f32::cos(alpha * dt);
        let sin_term = f32::sin(alpha * dt);
        let inv_alpha = 1.0 / alpha;
        let exp_sin = exp_term * sin_term;
        let exp_cos = exp_term * cos_term;
        let rest = exp_term * omega_zeta * sin_term * inv_alpha;
        pos_coef = exp_cos + rest;
        pos_vel_coef = exp_sin * inv_alpha;
        vel_pos_coef = -exp_sin * alpha - omega_zeta * rest;
        vel_coef = exp_cos - rest;
    } else {
        let exp_term = f32::exp(-w * dt);
        let time_exp = dt * exp_term;
        let time_exp_freq = time_exp * w;
        pos_coef = time_exp_freq + exp_term;
        pos_vel_coef = time_exp;
        vel_pos_coef = -w * time_exp_freq;
        vel_coef = -time_exp_freq + exp_term;
    }
    let old_pos = position - target;
    let old_vel = velocity;
    (
        old_pos * pos_coef + old_vel * pos_vel_coef + target,
        old_pos * vel_pos_coef + old_vel * vel_coef,
    )
}

fn same(got: Binary32, expected: f32) -> bool {
    if expected.is_nan() {
        got.is_nan()
    } else {
        got.bits == expected.to_bits()
    }
}

#[test]
fn new_starts_at_rest_at_zero() {
    let s = Spring::new(f(10.0), f(5.0), f(0.5));
    assert_eq!(s.target, f(10.0));
    assert_eq!(s.angular_frequency, f(5.0));
    assert_eq!(s.damping_ratio, f(0.5));
    assert_eq!(s.position.bits, 0);
    assert_eq!(s.velocity.bits, 0);
    let p = SpringVec::new(point(500.0, -375.0), f(25.0), f(8.0));
    assert_eq!(p.target, point(500.0, -375.0));
    assert_eq!(p.angular_frequency, f(25.0));
    assert_eq!(p.damping_ratio, f(8.0));
    assert_eq!(p.position, point(0.0, 0.0));
    assert_eq!(p.velocity, point(0.0, 0.0));
}

#[test]
fn new_clamps_negative_parameters() {
    let s = Spring::new(f(1.0), f(-5.0), f(-0.5));
    assert_eq!(s.angular_frequency.bits, 0);
    assert_eq!(s.damping_ratio.bits, 0);
    let p = SpringVec::new(point(1.0, 2.0), f(-5.0), f(-0.5));
    assert_eq!(p.angular_frequency.bits, 0);
    assert_eq!(p.damping_ratio.bits, 0);
}

#[test]
fn setters_clamp_and_touch_nothing_else() {
    let mut s = Spring::new(f(1.0), f(2.0), f(3.0));
    s.position = f(4.0);
    s.velocity = f(5.0);
    s.set_angular(f(-1.0));
    assert_eq!(s, Spring { angular_frequency: f(0.0), damping_ratio: f(3.0), target: f(1.0), position: f(4.0), velocity: f(5.0) });
    s.set_damping(f(-7.0));
    assert_eq!(s.damping_ratio, f(0.0));
    s.set_angular(f(9.0));
    s.set_damping(f(0.25));
    assert_eq!(s, Spring { angular_frequency: f(9.0), damping_ratio: f(0.25), target: f(1.0), position: f(4.0), velocity: f(5.0) });
    let mut p = SpringVec::new(point(1.0, 2.0), f(2.0), f(3.0));
    p.set_angular(f(-1.0));
    p.set_damping(f(-1.0));
    assert_eq!(p.angular_frequency, f(0.0));
    assert_eq!(p.damping_ratio, f(0.0));
    p.set_angular(f(6.0));
    p.set_damping(f(0.5));
    assert_eq!(p.angular_frequency, f(6.0));
    assert_eq!(p.damping_ratio, f(0.5));
    assert_eq!(p.target, point(1.0, 2.0));
}

#[test]
fn setters_let_a_nan_through() {
    let mut s = Spring::new(f(1.0), f(2.0), f(3.0));
    s.set_angular(f(f32::NAN));
    s.set_damping(f(f32::NAN));
    assert!(s.angular_frequency.is_nan());
    assert!(s.damping_ratio.is_nan());
}

#[test]
fn shove_adds_to_the_position_only() {
    let mut s = Spring::new(f(10.0), f(5.0), f(0.5));
    s.velocity = f(2.0);
    s.shove(f(1.5));
    s.shove(f(0.25));
    assert_eq!(s.position, f(1.75));
    assert_eq!(s.velocity, f(2.0));
    assert_eq!(s.target, f(10.0));
    let mut p = SpringVec::new(point(1.0, 2.0), f(5.0), f(0.5));
    p.shove(point(3.0, -4.0));
    p.shove(point(0.5, 0.5));
    assert_eq!(p.position, point(3.5, -3.5));
    assert_eq!(p.velocity, point(0.0, 0.0));
    assert_eq!(p.target, point(1.0, 2.0));
}

#[test]
fn shove_then_set_target_does_not_reposition() {
    let mut p = SpringVec::new(point(1.0, 2.0), f(5.0), f(0.5));
    p.shove(point(3.0, -4.0));
    let after_shove = p.position;
    p.set_target(point(100.0, 200.0));
    assert_eq!(p.position, after_shove);
    assert_eq!(p.position, point(3.0, -4.0));
    assert_eq!(p.target, point(100.0, 200.0));
}

#[test]
fn regime_follows_the_parameters() {
    assert_eq!(Spring::new(f(0.0), f(0.0), f(0.5)).regime(), Regime::Degenerate);
    assert_eq!(Spring::new(f(0.0), f(10.0), f(0.5)).regime(), Regime::UnderDamped);
    assert_eq!(Spring::new(f(0.0), f(10.0), f(1.0)).regime(), Regime::CriticallyDamped);
    assert_eq!(Spring::new(f(0.0), f(10.0), f(8.0)).regime(), Regime::OverDamped);
    assert_eq!(SpringVec::new(point(0.0, 0.0), f(25.0), f(8.0)).regime(), Regime::OverDamped);
    assert_eq!(SpringVec::new(point(0.0, 0.0), f(-25.0), f(8.0)).regime(), Regime::Degenerate);
}

#[test]
fn degenerate_tick_leaves_the_spring_bit_for_bit() {
    for w in [0.0f32, 0.00005, 0.000099] {
        for z in [0.0f32, 0.5, 1.0, 3.0, f32::NAN] {
            for dt in [0.0f32, 0.016, 1.0, 1.0e9, f32::INFINITY] {
                let mut s = Spring::new(f(10.0), f(w), f(z));
                s.position = f(1.0e-10);
                s.velocity = f(-3.25);
                let before = s;
                tick(&mut s, dt);
                assert_eq!(s, before);
                let waves = Waves { exp_first: f(7.0), exp_second: f(8.0), cos: f(9.0), sin: f(f32::NAN) };
                s.update(f(dt), waves);
                assert_eq!(s, before);
            }
        }
    }
    let mut p = SpringVec::new(point(1.0, 2.0), f(0.00001), f(0.5));
    p.position = point(3.0, 4.0);
    p.velocity = point(5.0, 6.0);
    let before = p;
    tick_vec(&mut p, 0.5);
    assert_eq!(p, before);
}

#[test]
fn arguments_of_each_regime() {
    let zero = f(0.0);
    assert_eq!(
        arguments(f(0.0), f(0.5), f(0.25)),
        Arguments { exp_first: zero, exp_second: zero, angle: zero }
    );
    // critically damped: -w * dt
    assert_eq!(
        arguments(f(4.0), f(1.0), f(0.25)),
        Arguments { exp_first: f(-1.0), exp_second: zero, angle: zero }
    );
    // under-damped without damping: -(w * 0) * dt and w * sqrt(1) * dt
    assert_eq!(
        arguments(f(4.0), f(0.0), f(0.25)),
        Arguments { exp_first: f(-0.0), exp_second: zero, angle: f(1.0) }
    );
    // over-damped, w = 1, z = 1.25: roots -1.25 -+ 0.75
    assert_eq!(
        arguments(f(1.0), f(1.25), f(0.5)),
        Arguments { exp_first: f(-1.0), exp_second: f(-0.25), angle: zero }
    );
}

#[test]
fn coefficients_of_the_critical_regime() {
    let waves = Waves { exp_first: f(0.5), exp_second: f(0.0), cos: f(0.0), sin: f(0.0) };
    let c = Coefficients::derive(f(2.0), f(1.0), f(0.5), waves);
    assert_eq!(
        c,
        Coefficients { pos_coef: f(1.0), pos_vel_coef: f(0.25), vel_pos_coef: f(-1.0), vel_coef: f(0.0) }
    );
}

#[test]
fn coefficients_of_the_under_damped_regime() {
    let waves = Waves { exp_first: f(1.0), exp_second: f(0.0), cos: f(0.5), sin: f(0.25) };
    let c = Coefficients::derive(f(2.0), f(0.0), f(0.125), waves);
    assert_eq!(
        c,
        Coefficients { pos_coef: f(0.5), pos_vel_coef: f(0.125), vel_pos_coef: f(-0.5), vel_coef: f(0.5) }
    );
}

#[test]
fn coefficients_of_the_over_damped_regime() {
    // w = 1, z = 1.25: z1 = -2, z2 = -0.5, zb = 0.75
    let waves = Waves { exp_first: f(0.25), exp_second: f(0.5), cos: f(0.0), sin: f(0.0) };
    let c = Coefficients::derive(f(1.0), f(1.25), f(1.0), waves);
    let inv = 1.0f32 / 1.5f32;
    let e1 = 0.25f32 * inv;
    let e2 = 0.5f32 * inv;
    assert_eq!(c.pos_coef, f(e1 * -0.5 - -0.5 * e2 + 0.5));
    assert_eq!(c.pos_vel_coef, f(-e1 + e2));
    assert_eq!(c.vel_pos_coef, f((-2.0 * e1 - -0.5 * e2 + 0.5) * -0.5));
    assert_eq!(c.vel_coef, f(-(-2.0 * e1) + -0.5 * e2));
}

#[test]
fn coefficients_of_the_degenerate_regime_are_the_identity() {
    let waves = Waves { exp_first: f(0.5), exp_second: f(0.25), cos: f(0.5), sin: f(0.5) };
    let c = Coefficients::derive(f(0.0), f(1.0), f(0.5), waves);
    assert_eq!(c, Coefficients::identity());
    assert_eq!(
        c,
        Coefficients { pos_coef: f(1.0), pos_vel_coef: f(0.0), vel_pos_coef: f(0.0), vel_coef: f(1.0) }
    );
}

#[test]
fn apply_step_on_small_numbers() {
    let c = Coefficients { pos_coef: f(0.5), pos_vel_coef: f(0.25), vel_pos_coef: f(-2.0), vel_coef: f(0.125) };
    // position 3, target 11, velocity 16: (3 - 11) * 0.5 + 16 * 0.25 + 11 and (3 - 11) * -2 + 16 * 0.125
    assert_eq!(c.position(f(11.0), f(3.0), f(16.0)), f(11.0));
    assert_eq!(c.velocity(f(11.0), f(3.0), f(16.0)), f(18.0));
}

#[test]
fn update_agrees_with_the_arithmetic_of_the_machine() {
    let omegas = [0.0001f32, 0.3, 1.0, 5.0, 10.0, 25.0, 400.0];
    let zetas = [0.0f32, 0.1, 0.5, 0.9, 0.9998, 0.99995, 1.0, 1.00005, 1.0002, 1.5, 8.0, 50.0];
    let steps = [0.0f32, 1.0e-4, 1.0 / 60.0, 0.1, 1.0, 30.0];
    for w in omegas {
        for z in zetas {
            for dt in steps {
                let mut s = Spring::new(f(10.0), f(w), f(z));
                s.shove(f(-2.5));
                let (mut position, mut velocity) = (-2.5f32, 0.0f32);
                for _ in 0..20 {
                    tick(&mut s, dt);
                    let next = machine_tick(w, z, 10.0, position, velocity, dt);
                    position = next.0;
                    velocity = next.1;
                    assert!(same(s.position, position), "{} {} {}", w, z, dt);
                    assert!(same(s.velocity, velocity), "{} {} {}", w, z, dt);
                }
            }
        }
    }
}

#[test]
fn under_damped_spring_converges() {
    let mut s = Spring::new(f(10.0), f(10.0), f(0.5));
    let dt = 1.0f32 / 60.0;
    for _ in 0..600 {
        tick(&mut s, dt);
    }
    assert!((v(s.position) - 10.0).abs() < 1.0e-3);
    assert!(v(s.velocity).abs() < 1.0e-3);
}

#[test]
fn every_damped_regime_converges() {
    for z in [0.2f32, 1.0, 2.0, 8.0] {
        let mut s = Spring::new(f(-3.0), f(6.0), f(z));
        s.shove(f(4.0));
        for _ in 0..6000 {
            tick(&mut s, 1.0 / 60.0);
        }
        assert!((v(s.position) + 3.0).abs() < 1.0e-3, "{}", z);
        assert!(v(s.velocity).abs() < 1.0e-3, "{}", z);
    }
}

#[test]
fn no_overshoot_where_damping_is_critical_or_more() {
    for z in [1.0f32, 1.0001, 1.5, 3.0, 8.0] {
        for dt in [0.0f32, 0.001, 1.0 / 60.0, 0.1, 0.5, 2.0, 100.0] {
            let mut s = Spring::new(f(10.0), f(5.0), f(z));
            for _ in 0..400 {
                tick(&mut s, dt);
                assert!(v(s.position) <= 10.0 + 1.0e-4, "{} {} {}", z, dt, v(s.position));
            }
        }
    }
}

#[test]
fn position_is_continuous_across_the_critical_band() {
    for dt in [1.0f32 / 60.0, 0.1, 0.5] {
        let mut results = Vec::new();
        for z in [1.0f32 - 1.0e-5, 1.0, 1.0 + 1.0e-5, 1.0 - 2.0e-4, 1.0 + 2.0e-4] {
            let mut s = Spring::new(f(10.0), f(5.0), f(z));
            tick(&mut s, dt);
            results.push(v(s.position));
        }
        for a in &results {
            for b in &results {
                assert!((a - b).abs() < 1.0e-2, "{} {} {}", dt, a, b);
            }
        }
    }
}

#[test]
fn a_tick_of_no_time_changes_next_to_nothing() {
    for z in [0.0f32, 0.5, 1.0, 1.5, 8.0] {
        let mut s = Spring::new(f(10.0), f(5.0), f(z));
        s.position = f(2.5);
        s.velocity = f(-1.25);
        tick(&mut s, 0.0);
        assert!((v(s.position) - 2.5).abs() < 1.0e-5, "{}", z);
        assert!((v(s.velocity) + 1.25).abs() < 1.0e-5, "{}", z);
    }
}

#[test]
fn a_tick_of_no_time_is_exact_below_and_in_the_critical_band() {
    for z in [0.0f32, 0.3, 0.9, 1.0] {
        let mut s = Spring::new(f(10.0), f(5.0), f(z));
        s.position = f(2.5);
        s.velocity = f(-1.25);
        tick(&mut s, 0.0);
        assert_eq!(s.position, f(2.5), "{}", z);
        assert_eq!(s.velocity, f(-1.25), "{}", z);
    }
}

#[test]
fn a_tick_of_no_time_rounds_the_position_through_the_target() {
    // 1.0e-10 - 1 rounds to -1, and -1 + 1 is 0
    let mut s = Spring::new(f(1.0), f(5.0), f(1.0));
    s.position = f(1.0e-10);
    s.velocity = f(0.5);
    tick(&mut s, 0.0);
    assert_eq!(s.position, f(0.0));
    assert_eq!(s.velocity, f(0.5));
}

#[test]
fn a_tick_of_no_time_rounds_the_velocity_where_damping_is_high() {
    // the two roots divided by their distance do not differ by 1 exactly
    let mut s = Spring::new(f(10.0), f(5.0), f(1.5));
    s.velocity = f(1.0);
    tick(&mut s, 0.0);
    assert_eq!(s.position, f(0.0));
    assert_eq!(s.velocity, f(0.9999978542327881));
}

#[test]
fn each_axis_moves_as_a_scalar_spring() {
    for z in [0.3f32, 1.0, 4.0] {
        let mut plane = SpringVec::new(point(500.0, -375.0), f(25.0), f(z));
        let mut first = Spring::new(f(500.0), f(25.0), f(z));
        let mut second = Spring::new(f(-375.0), f(25.0), f(z));
        plane.shove(point(3.0, -7.0));
        first.shove(f(3.0));
        second.shove(f(-7.0));
        for i in 0..200 {
            let dt = 0.001 + (i % 7) as f32 * 0.004;
            tick_vec(&mut plane, dt);
            tick(&mut first, dt);
            tick(&mut second, dt);
            assert_eq!(plane.position, Point { x: first.position, y: second.position });
            assert_eq!(plane.velocity, Point { x: first.velocity, y: second.velocity });
        }
    }
}

#[test]
fn update_keeps_parameters_and_target() {
    let mut s = Spring::new(f(10.0), f(5.0), f(0.5));
    tick(&mut s, 0.1);
    assert_eq!(s.target, f(10.0));
    assert_eq!(s.angular_frequency, f(5.0));
    assert_eq!(s.damping_ratio, f(0.5));
    assert!(s.position != f(0.0));
}

#[test]
fn a_nan_target_gives_a_nan_position() {
    let mut s = Spring::new(f(f32::NAN), f(5.0), f(0.5));
    tick(&mut s, 0.1);
    assert!(s.position.is_nan());
}

#[test]
fn point_adds_by_coordinate() {
    assert_eq!(point(1.0, 2.0).add(point(0.5, -4.0)), point(1.5, -2.0));
    assert_eq!(Point::zero(), point(0.0, 0.0));
}
