use damped_spring::binary32::Binary32;
use damped_spring::regime::{
    select, Regime, EPSILON_BITS, ONE_MINUS_EPSILON_BITS, ONE_PLUS_EPSILON_BITS,
};

fn b(bits: u32) -> Binary32 {
    Binary32 { bits }
}

fn f(x: f32) -> Binary32 {
    Binary32 { bits: x.to_bits() }
}

fn by_comparison(w: f32, z: f32) -> Regime {
    let epsilon = 0.0001f32;
    if w < epsilon {
        Regime::Degenerate
    } else if z > 1.0 + epsilon {
        Regime::OverDamped
    } else if z < 1.0 - epsilon {
        Regime::UnderDamped
    } else {
        Regime::CriticallyDamped
    }
}

#[test]
fn band_constants_are_the_rounded_numbers() {
    assert_eq!(EPSILON_BITS, 0.0001f32.to_bits());
    assert_eq!(ONE_PLUS_EPSILON_BITS, (1.0f32 + 0.0001f32).to_bits());
    assert_eq!(ONE_MINUS_EPSILON_BITS, (1.0f32 - 0.0001f32).to_bits());
}

#[test]
fn frequency_below_the_tolerance_is_degenerate() {
    assert_eq!(select(f(0.0), f(0.5)), Regime::Degenerate);
    assert_eq!(select(f(0.00009), f(5.0)), Regime::Degenerate);
    assert_eq!(select(b(EPSILON_BITS - 1), f(1.0)), Regime::Degenerate);
    assert_eq!(select(f(-3.0), f(1.0)), Regime::Degenerate);
    assert_eq!(select(f(0.0), f(f32::NAN)), Regime::Degenerate);
}

#[test]
fn frequency_at_the_tolerance_is_not_degenerate() {
    assert_eq!(select(b(EPSILON_BITS), f(1.0)), Regime::CriticallyDamped);
    assert_eq!(select(b(EPSILON_BITS), f(0.5)), Regime::UnderDamped);
    assert_eq!(select(b(EPSILON_BITS), f(2.0)), Regime::OverDamped);
}

#[test]
fn ratio_is_compared_with_the_ends_of_the_band() {
    let w = f(10.0);
    assert_eq!(select(w, b(ONE_PLUS_EPSILON_BITS)), Regime::CriticallyDamped);
    assert_eq!(select(w, b(ONE_PLUS_EPSILON_BITS + 1)), Regime::OverDamped);
    assert_eq!(select(w, b(ONE_MINUS_EPSILON_BITS)), Regime::CriticallyDamped);
    assert_eq!(select(w, b(ONE_MINUS_EPSILON_BITS - 1)), Regime::UnderDamped);
    assert_eq!(select(w, f(1.0)), Regime::CriticallyDamped);
    assert_eq!(select(w, f(0.0)), Regime::UnderDamped);
    assert_eq!(select(w, f(f32::INFINITY)), Regime::OverDamped);
}

#[test]
fn a_nan_satisfies_no_comparison() {
    assert_eq!(select(f(f32::NAN), f(0.5)), Regime::UnderDamped);
    assert_eq!(select(f(f32::NAN), f(2.0)), Regime::OverDamped);
    assert_eq!(select(f(10.0), f(f32::NAN)), Regime::CriticallyDamped);
    assert_eq!(select(f(f32::NAN), f(f32::NAN)), Regime::CriticallyDamped);
}

#[test]
fn select_agrees_with_the_comparisons_of_the_machine() {
    let omegas = [0.0f32, 0.00005, 0.0001, 0.00010001, 0.5, 5.0, 25.0, -1.0, f32::NAN, f32::INFINITY];
    let zetas = [
        0.0f32, 0.5, 0.9998, 0.9999, 0.99990004, 1.0, 1.0001, 1.00010001, 1.0002, 8.0, -2.0,
        f32::NAN, f32::INFINITY,
    ];
    for w in omegas {
        for z in zetas {
            assert_eq!(select(f(w), f(z)), by_comparison(w, z), "{} {}", w, z);
        }
    }
}
