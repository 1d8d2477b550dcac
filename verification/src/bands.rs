//! The bands around critical damping keep the divisors of the closed form
//! away from zero.
//!
//! The over-damped form divides by twice the distance of its roots, the
//! under-damped form by its angular rate. Both are a product of the angular
//! frequency and a square root that vanishes at damping ratio 1. Outside
//! the critical band that root is at least 2^-7, and an angular frequency
//! that is not degenerate is above 2^-14, so neither divisor is below
//! 2^-21.

use crate::algebra::{
    at_least, lemma_add_zero, lemma_add_zeros, lemma_div_at_most, lemma_mul_at_least,
    lemma_mul_at_most, lemma_mul_one, lemma_mul_zero, lemma_neg, lemma_one, lemma_packed,
    lemma_repack, lemma_sqrt_at_least, lemma_sqrt_at_most, lemma_sub_at_least, lemma_sub_at_most,
    lemma_zero_patterns,
};
use crate::binary32::{
    Binary32, INFINITY_BITS, ONE_BITS, lemma_magnitude_order, lemma_magnitude_zero,
    lemma_order_of_patterns, scaled_magnitude,
};
use crate::coefficients::{
    Coefficients, TWO_BITS, Waves, arguments_spec, complex_root, one, real_roots, two,
};
use crate::nearest::{
    lemma_parts, lemma_pattern_order, lemma_power_pattern, lemma_rounded_at_most,
    lemma_rounded_exists, power_pattern, rounded,
};
use crate::regime::{
    EPSILON_BITS, ONE_MINUS_EPSILON_BITS, ONE_PLUS_EPSILON_BITS, Regime, epsilon, one_minus_epsilon,
    one_plus_epsilon, regime_of,
};
use vstd::arithmetic::mul::*;
use vstd::arithmetic::power2::*;
use vstd::prelude::*;

verus! {

/// A number that another one is below, where that one is not negative, is
/// positive and has the larger pattern.
proof fn lemma_above(low: Binary32, x: Binary32)
    requires
        low.bits <= INFINITY_BITS,
        low.lt_spec(x),
    ensures
        low.bits < x.bits <= INFINITY_BITS,
{
    lemma_order_of_patterns(low, low);
    lemma_repack(x);
    if !x.is_sign_negative_spec() {
        lemma_order_of_patterns(low, x);
    }
}

/// A number that is no NaN and not below one that is not negative has at
/// least its pattern.
proof fn lemma_not_below(x: Binary32, low: Binary32)
    requires
        low.bits <= INFINITY_BITS,
        0 < low.bits,
        !x.is_nan_spec(),
        !x.lt_spec(low),
    ensures
        at_least(x, low.bits),
{
    lemma_order_of_patterns(low, low);
    lemma_repack(x);
    lemma_pattern_order(0, low.bits);
    lemma_magnitude_zero(0);
    assert(0u32 & 0x7fff_ffff == 0) by (bit_vector);
    if !x.is_sign_negative_spec() {
        lemma_order_of_patterns(x, low);
    }
}

/// Where the square root under it is at least 2^-7, the product with an
/// angular frequency that is not degenerate is a NaN or at least 2^-21.
proof fn lemma_rate(w: Binary32, root: Binary32)
    requires
        !w.lt_spec(epsilon()),
        at_least(root, power_pattern(142)),
    ensures
        !w.mul_spec(root).is_zero_spec(),
        w.is_nan_spec() ==> w.mul_spec(root).is_nan_spec(),
        !w.is_nan_spec() ==> at_least(w.mul_spec(root), power_pattern(128)),
{
    lemma_power_pattern(142);
    lemma_power_pattern(128);
    if w.is_nan_spec() {
        assert(0x7fc0_0000u32 & 0x7fff_ffff == 0x7fc0_0000) by (bit_vector);
    } else {
        lemma_not_below(w, epsilon());
        // the tolerance is at least 2^-14
        lemma_parts(112, 0x80_0000 + 0x51_b717);
        assert(112 * 0x80_0000 + 0x80_0000 + 0x51_b717 == EPSILON_BITS);
        lemma2_to64();
        lemma_pow2_adds(23, 112);
        lemma_pow2_adds(135, 142);
        lemma_pow2_adds(128, 149);
        let low = scaled_magnitude(EPSILON_BITS);
        let unit = pow2(112);
        assert(low >= pow2(135)) by (nonlinear_arith)
            requires
                low == (0x80_0000 + 0x51_b717) * unit,
                pow2(135) == 0x80_0000 * unit,
        ;
        lemma_mul_inequality(pow2(135) as int, low as int, pow2(142) as int);
        lemma_mul_at_least(w, root, EPSILON_BITS, power_pattern(142), power_pattern(128));
        let rate = w.mul_spec(root);
        let bits = rate.bits;
        assert(bits & 0x7fff_ffff != 0) by (bit_vector)
            requires
                0 < bits <= 0x7f80_0000,
        ;
    }
}

/// In the over-damped regime the closed form does not divide by zero:
/// half the distance of the roots is a NaN, which only a NaN angular
/// frequency gives, or at least 2^-21.
pub proof fn lemma_over_damped_divisor(w: Binary32, z: Binary32)
    requires
        regime_of(w, z) == Regime::OverDamped,
    ensures
        !two().mul_spec(real_roots(w, z).2).is_zero_spec(),
        w.is_nan_spec() || at_least(real_roots(w, z).2, power_pattern(128)),
{
    lemma_above(one_plus_epsilon(), z);
    lemma_one();
    lemma2_to64();
    let unit = pow2(126);
    // z * z is at least 1 + 1680 * 2^-23
    let low: u32 = (ONE_PLUS_EPSILON_BITS + 1) as u32;
    let square: u32 = (ONE_BITS + 1680) as u32;
    lemma_parts(126, 0x80_0000 + 840);
    lemma_parts(126, 0x80_0000 + 1680);
    lemma_parts(126, 0x80_0000);
    lemma_pow2_adds(23, 126);
    assert(scaled_magnitude(square) * pow2(149) <= scaled_magnitude(low) * scaled_magnitude(low))
        by (nonlinear_arith)
        requires
            scaled_magnitude(square) == (0x80_0000 + 1680) * unit,
            scaled_magnitude(low) == (0x80_0000 + 840) * unit,
            pow2(149) == 0x80_0000 * unit,
    ;
    lemma_mul_at_least(z, z, low, low, square);
    // less 1 it is at least 2^-13
    lemma_power_pattern(136);
    lemma_pow2_adds(10, 126);
    lemma_sub_at_least(z.mul_spec(z), one(), square, ONE_BITS, power_pattern(136));
    // and its root at least 2^-7
    lemma_power_pattern(142);
    lemma_pow2_adds(142, 142);
    lemma_pow2_adds(136, 149);
    lemma_pow2_strictly_increases(284, 285);
    lemma_sqrt_at_least(
        z.mul_spec(z).sub_spec(one()),
        power_pattern(136),
        power_pattern(142),
    );
    let root = z.mul_spec(z).sub_spec(one()).sqrt_spec();
    lemma_rate(w, root);
    let zb = w.mul_spec(root);
    assert(real_roots(w, z).2 == zb);
    lemma_twice(zb);
}

/// Twice a number that is a NaN or at least 2^-21 is no zero.
proof fn lemma_twice(x: Binary32)
    requires
        x.is_nan_spec() || at_least(x, power_pattern(128)),
    ensures
        !two().mul_spec(x).is_zero_spec(),
{
    if x.is_nan_spec() {
        assert(0x7fc0_0000u32 & 0x7fff_ffff == 0x7fc0_0000) by (bit_vector);
    } else {
        lemma_power_pattern(128);
        lemma_power_pattern(129);
        lemma_power_pattern(150);
        assert(power_pattern(150) == TWO_BITS);
        lemma_pow2_adds(150, 128);
        lemma_pow2_adds(129, 149);
        lemma_mul_at_least(two(), x, TWO_BITS, power_pattern(128), power_pattern(129));
        let bits = two().mul_spec(x).bits;
        assert(bits & 0x7fff_ffff != 0) by (bit_vector)
            requires
                0 < bits <= 0x7f80_0000,
        ;
    }
}

/// Below the critical band, a damping ratio that is not negative has a
/// magnitude below 1, and the square root of 1 less its square lies
/// between 2^-7 and 1.
proof fn lemma_under_damped_root(z: Binary32)
    requires
        z.lt_spec(one_minus_epsilon()),
        !z.lt_spec(Binary32::zero_spec()),
    ensures
        z.magnitude() < ONE_BITS,
        power_pattern(142) <= one().sub_spec(z.mul_spec(z)).sqrt_spec().bits <= ONE_BITS,
{
    lemma_one();
    lemma2_to64();
    let unit = pow2(125);
    // the magnitude of z is below 1 - 1678 * 2^-24
    let top: u32 = (ONE_MINUS_EPSILON_BITS - 1) as u32;
    lemma_repack(z);
    lemma_order_of_patterns(one_minus_epsilon(), one_minus_epsilon());
    lemma_magnitude_zero(0);
    assert(0u32 & 0x7fff_ffff == 0) by (bit_vector);
    lemma_magnitude_zero(z.bits);
    let m = z.magnitude();
    assert(m <= top) by {
        let bits = z.bits;
        assert((bits & 0x7fff_ffff) & 0x7fff_ffff == bits & 0x7fff_ffff) by (bit_vector);
        assert(ONE_MINUS_EPSILON_BITS & 0x7fff_ffff == ONE_MINUS_EPSILON_BITS) by (bit_vector);
        lemma_magnitude_order(ONE_MINUS_EPSILON_BITS, m);
        lemma_magnitude_order(m, ONE_MINUS_EPSILON_BITS);
    }
    // so z * z is at most 1 - 3357 * 2^-24
    let square: u32 = (125 * 0x80_0000 + 0x100_0000 - 3357) as u32;
    lemma_parts(125, (0x100_0000 - 1679) as nat);
    assert(125 * 0x80_0000 + 0x100_0000 - 1679 == top);
    lemma_parts(125, (0x100_0000 - 3357) as nat);
    lemma_pattern_order(m, top);
    lemma_pow2_adds(24, 125);
    let sm = scaled_magnitude(z.bits);
    let bound = scaled_magnitude(top);
    lemma_mul_upper_bound(sm as int, bound as int, sm as int, bound as int);
    assert(bound * bound <= scaled_magnitude(square) * pow2(149)) by (nonlinear_arith)
        requires
            scaled_magnitude(square) == (0x100_0000 - 3357) * unit,
            bound == (0x100_0000 - 1679) * unit,
            pow2(149) == 0x100_0000 * unit,
    ;
    lemma_pow2_pos(149);
    lemma_rounded_at_most(square, sm * sm, pow2(149));
    lemma_rounded_exists(sm * sm, pow2(149));
    let zz = z.mul_spec(z);
    lemma_packed(false, rounded(sm * sm, pow2(149)));
    assert(zz.bits <= square);
    // 1 less that lies between 2^-13 and 1
    lemma_power_pattern(136);
    lemma_pow2_adds(11, 125);
    lemma_sub_at_least(one(), zz, ONE_BITS, square, power_pattern(136));
    lemma_sub_at_most(one(), zz);
    // and its root between 2^-7 and 1
    lemma_power_pattern(142);
    lemma_pow2_adds(142, 142);
    lemma_pow2_adds(136, 149);
    lemma_pow2_adds(149, 149);
    lemma_pow2_strictly_increases(284, 285);
    lemma_sqrt_at_least(one().sub_spec(zz), power_pattern(136), power_pattern(142));
    lemma_sqrt_at_most(one().sub_spec(zz), ONE_BITS, ONE_BITS);
}

/// In the under-damped regime, with a damping ratio that is not negative,
/// the closed form does not divide by zero: the angular rate is a NaN,
/// which only a NaN angular frequency gives, or at least 2^-21.
pub proof fn lemma_under_damped_divisor(w: Binary32, z: Binary32)
    requires
        regime_of(w, z) == Regime::UnderDamped,
        !z.lt_spec(Binary32::zero_spec()),
    ensures
        !complex_root(w, z).1.is_zero_spec(),
        w.is_nan_spec() || at_least(complex_root(w, z).1, power_pattern(128)),
{
    lemma_under_damped_root(z);
    lemma_rate(w, one().sub_spec(z.mul_spec(z)).sqrt_spec());
}

/// Over no time at all the coefficients of the under-damped regime are the
/// identity, where angular frequency is finite and the damping ratio not
/// negative.
pub proof fn lemma_under_damped_at_zero_time(w: Binary32, z: Binary32, waves: Waves)
    requires
        regime_of(w, z) == Regime::UnderDamped,
        !z.lt_spec(Binary32::zero_spec()),
        w.is_finite_spec(),
        waves.exp_first == one(),
        waves.cos == one(),
        waves.sin == Binary32::zero_spec(),
    ensures
        Coefficients::under_damped_spec(w, z, waves).is_identity(),
{
    let zero = Binary32::zero_spec();
    let root = one().sub_spec(z.mul_spec(z)).sqrt_spec();
    lemma_under_damped_root(z);
    lemma_rate(w, root);
    lemma_one();
    lemma_zero_patterns(false);
    lemma_repack(w);
    lemma_repack(root);
    lemma_order_of_patterns(root, root);
    let (omega_zeta, alpha) = complex_root(w, z);
    // both rates are finite
    lemma_pow2_pos(149);
    lemma_mul_at_most(w, z, w.magnitude(), ONE_BITS, w.magnitude());
    lemma_mul_at_most(w, root, w.magnitude(), ONE_BITS, w.magnitude());
    // and so is what the angular rate divides
    lemma_power_pattern(128);
    lemma_power_pattern(170);
    lemma_pow2_adds(149, 149);
    lemma_pow2_adds(170, 128);
    lemma_div_at_most(one(), alpha, ONE_BITS, power_pattern(128), power_pattern(170));
    let inv_alpha = one().div_spec(alpha);
    lemma_repack(inv_alpha);
    lemma_order_of_patterns(inv_alpha, inv_alpha);
    // the sine is 0, and takes with it all that it multiplies
    lemma_mul_one(zero);
    lemma_mul_one(one());
    lemma_mul_one(omega_zeta);
    let exp_sin = one().mul_spec(zero);
    lemma_mul_zero(omega_zeta, zero);
    lemma_mul_zero(inv_alpha, omega_zeta.mul_spec(zero));
    let rest = one().mul_spec(omega_zeta).mul_spec(zero).mul_spec(inv_alpha);
    lemma_add_zero(one(), rest);
    lemma_mul_zero(inv_alpha, exp_sin);
    lemma_neg(exp_sin);
    lemma_mul_zero(alpha, exp_sin.neg_spec());
    lemma_mul_zero(omega_zeta, rest);
    lemma_neg(omega_zeta.mul_spec(rest));
    lemma_add_zeros(
        exp_sin.neg_spec().mul_spec(alpha),
        omega_zeta.mul_spec(rest).neg_spec(),
    );
    lemma_neg(rest);
    lemma_add_zero(one(), rest.neg_spec());
}

/// For a tick of no time the host is asked for the exponential of a zero
/// and for cosine and sine of +0.0, in the critical regime and, for a
/// damping ratio that is not negative, in the under-damped one.
pub proof fn lemma_arguments_at_zero_time(w: Binary32, z: Binary32)
    requires
        regime_of(w, z) == Regime::CriticallyDamped || regime_of(w, z) == Regime::UnderDamped,
        !z.lt_spec(Binary32::zero_spec()),
        w.is_finite_spec(),
    ensures
        arguments_spec(w, z, Binary32::zero_spec()).exp_first.is_zero_spec(),
        arguments_spec(w, z, Binary32::zero_spec()).exp_second == Binary32::zero_spec(),
        arguments_spec(w, z, Binary32::zero_spec()).angle == Binary32::zero_spec(),
{
    let zero = Binary32::zero_spec();
    lemma_zero_patterns(false);
    if regime_of(w, z) == Regime::CriticallyDamped {
        lemma_neg(w);
        lemma_mul_zero(w.neg_spec(), zero);
    } else {
        let root = one().sub_spec(z.mul_spec(z)).sqrt_spec();
        lemma_under_damped_root(z);
        lemma_rate(w, root);
        lemma_one();
        lemma_repack(w);
        lemma_repack(root);
        lemma_order_of_patterns(root, root);
        let (omega_zeta, alpha) = complex_root(w, z);
        lemma_pow2_pos(149);
        lemma_mul_at_most(w, z, w.magnitude(), ONE_BITS, w.magnitude());
        lemma_mul_at_most(w, root, w.magnitude(), ONE_BITS, w.magnitude());
        lemma_neg(omega_zeta);
        lemma_mul_zero(omega_zeta.neg_spec(), zero);
        lemma_mul_zero(alpha, zero);
        lemma_repack(alpha.mul_spec(zero));
    }
}

} // verus!
