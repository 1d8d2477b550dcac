//! The damping regimes of a spring, and the choice among them.

use crate::algebra::{lemma_neg, lemma_one, lemma_repack};
use crate::binary32::{Binary32, ONE_BITS, lemma_order_of_patterns};
use crate::nearest::{lemma_parts, lemma_rounded_exists, lemma_rounds_to_unique, rounded, rounds_to};
use vstd::arithmetic::power2::*;
use vstd::prelude::*;

verus! {

/// The tolerance of the regime bands: the binary32 nearest to 0.0001.
pub const EPSILON_BITS: u32 = 0x38d1_b717;

/// The binary32 sum of 1.0 and the tolerance.
pub const ONE_PLUS_EPSILON_BITS: u32 = 0x3f80_0347;

/// The binary32 difference of 1.0 and the tolerance.
pub const ONE_MINUS_EPSILON_BITS: u32 = 0x3f7f_f972;

/// The form that the motion of a spring takes over one tick.
#[derive(Clone, Copy, Debug, PartialEq, Eq, Structural)]
pub enum Regime {
    /// No restoring force: the tick leaves the spring where it is.
    Degenerate,
    /// Two distinct real roots: decay without oscillation.
    OverDamped,
    /// Complex roots: decaying oscillation.
    UnderDamped,
    /// A repeated real root, and everything that no other regime takes.
    CriticallyDamped,
}

/// The tolerance as a number.
pub open spec fn epsilon() -> Binary32 {
    Binary32 { bits: EPSILON_BITS }
}

/// The upper end of the critical band.
pub open spec fn one_plus_epsilon() -> Binary32 {
    Binary32 { bits: ONE_PLUS_EPSILON_BITS }
}

/// The lower end of the critical band.
pub open spec fn one_minus_epsilon() -> Binary32 {
    Binary32 { bits: ONE_MINUS_EPSILON_BITS }
}

/// The regime of a spring with the given angular frequency and damping
/// ratio. The frequency is looked at first; a NaN satisfies no comparison,
/// so a NaN frequency is never degenerate and a NaN ratio is critical.
pub open spec fn regime_of(angular_frequency: Binary32, damping_ratio: Binary32) -> Regime {
    if angular_frequency.lt_spec(epsilon()) {
        Regime::Degenerate
    } else if one_plus_epsilon().lt_spec(damping_ratio) {
        Regime::OverDamped
    } else if damping_ratio.lt_spec(one_minus_epsilon()) {
        Regime::UnderDamped
    } else {
        Regime::CriticallyDamped
    }
}

/// Chooses the regime for one tick from the two parameters alone.
pub fn select(angular_frequency: Binary32, damping_ratio: Binary32) -> (r: Regime)
    ensures
        r == regime_of(angular_frequency, damping_ratio),
{
    if angular_frequency.lt(Binary32 { bits: EPSILON_BITS }) {
        Regime::Degenerate
    } else if (Binary32 { bits: ONE_PLUS_EPSILON_BITS }).lt(damping_ratio) {
        Regime::OverDamped
    } else if damping_ratio.lt(Binary32 { bits: ONE_MINUS_EPSILON_BITS }) {
        Regime::UnderDamped
    } else {
        Regime::CriticallyDamped
    }
}

/// The tolerance is 1 / 10000, rounded.
pub proof fn lemma_epsilon_is_a_ten_thousandth()
    ensures
        rounded(pow2(149), 10000) == EPSILON_BITS,
{
    let unit = pow2(112);
    lemma_pow2_pos(112);
    lemma2_to64();
    lemma2_to64_rest();
    lemma_pow2_adds(37, 112);
    lemma_parts(112, 13743894);
    lemma_parts(112, 13743895);
    lemma_parts(112, 13743896);
    assert(112 * 0x80_0000 + 13743895 == EPSILON_BITS);
    assert(rounds_to(EPSILON_BITS, pow2(149), 10000));
    lemma_rounded_exists(pow2(149), 10000);
    lemma_rounds_to_unique(EPSILON_BITS, rounded(pow2(149), 10000), pow2(149), 10000);
}

/// The ends of the critical band are 1 with the tolerance added and taken
/// away, rounded.
pub proof fn lemma_band_is_one_give_or_take_epsilon()
    ensures
        one_plus_epsilon() == (Binary32 { bits: ONE_BITS }).add_spec(epsilon()),
        one_minus_epsilon() == (Binary32 { bits: ONE_BITS }).sub_spec(epsilon()),
{
    let one = Binary32 { bits: ONE_BITS };
    let unit = pow2(112);
    lemma_pow2_pos(112);
    lemma_one();
    lemma2_to64();
    lemma2_to64_rest();
    lemma_pow2_adds(37, 112);
    lemma_pow2_adds(14, 112);
    lemma_pow2_adds(13, 112);
    lemma_order_of_patterns(epsilon(), one);
    lemma_order_of_patterns(one, epsilon());
    lemma_repack(epsilon());
    lemma_repack(one);
    lemma_neg(epsilon());
    lemma_parts(112, 13743895);
    assert(112 * 0x80_0000 + 13743895 == EPSILON_BITS);
    let tolerance = 13743895 * unit;
    assert(epsilon().scaled_value() == tolerance);
    assert(epsilon().neg_spec().scaled_value() == -tolerance);
    assert(pow2(149) == 0x20_0000_0000 * unit);
    // 1 + tolerance
    let upper = (pow2(149) + tolerance) as nat;
    lemma_parts(126, 8389446);
    lemma_parts(126, 8389447);
    lemma_parts(126, 8389448);
    assert(126 * 0x80_0000 + 8389447 == ONE_PLUS_EPSILON_BITS);
    let high = pow2(126);
    assert(high == 16384 * unit);
    assert(rounds_to(ONE_PLUS_EPSILON_BITS, upper, 1));
    lemma_rounded_exists(upper, 1);
    lemma_rounds_to_unique(ONE_PLUS_EPSILON_BITS, rounded(upper, 1), upper, 1);
    assert(one.scaled_value() + epsilon().scaled_value() == upper);
    // 1 - tolerance
    let lower = (pow2(149) - tolerance) as nat;
    lemma_parts(125, 16775537);
    lemma_parts(125, 16775538);
    lemma_parts(125, 16775539);
    assert(125 * 0x80_0000 + 16775538 == ONE_MINUS_EPSILON_BITS);
    let low = pow2(125);
    assert(low == 8192 * unit);
    assert(rounds_to(ONE_MINUS_EPSILON_BITS, lower, 1));
    lemma_rounded_exists(lower, 1);
    lemma_rounds_to_unique(ONE_MINUS_EPSILON_BITS, rounded(lower, 1), lower, 1);
    assert(one.scaled_value() + epsilon().neg_spec().scaled_value() == lower);
}

} // verus!
