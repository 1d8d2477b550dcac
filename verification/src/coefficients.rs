//! The closed form of one tick: what the host has to evaluate, and the four
//! coefficients that carry position and velocity over the elapsed time.
//!
//! Exponential, cosine and sine are the host's: it receives their
//! arguments, and hands back their values. Every other step is taken here,
//! in the arithmetic of `crate::arithmetic`, in the order that the closed
//! form is written down in.

use crate::algebra::{
    lemma_add_finite, lemma_add_zero, lemma_add_zeros, lemma_mul_one, lemma_mul_zero, lemma_neg,
    lemma_one, lemma_zero_patterns, same_number,
};
use crate::binary32::{Binary32, ONE_BITS, ZERO_BITS, lemma_magnitude_zero};
use crate::regime::{Regime, regime_of, select};
use vstd::prelude::*;

verus! {

/// The pattern of 2.0.
pub const TWO_BITS: u32 = 0x4000_0000;

/// The numbers whose exponential, cosine and sine a tick needs. A field
/// that the regime has no use for is +0.0.
#[derive(Clone, Copy, Debug, PartialEq, Eq, Structural)]
pub struct Arguments {
    /// Argument of the first exponential.
    pub exp_first: Binary32,
    /// Argument of the second exponential, which only the over-damped
    /// regime has.
    pub exp_second: Binary32,
    /// Argument of cosine and sine, which only the under-damped regime
    /// has.
    pub angle: Binary32,
}

/// What the host evaluated: the exponentials of `exp_first` and
/// `exp_second`, and cosine and sine of `angle`.
#[derive(Clone, Copy, Debug, PartialEq, Eq, Structural)]
pub struct Waves {
    pub exp_first: Binary32,
    pub exp_second: Binary32,
    pub cos: Binary32,
    pub sin: Binary32,
}

/// The entries of the matrix that takes position, counted from the target,
/// and velocity from the start of a tick to its end.
#[derive(Clone, Copy, Debug, PartialEq, Eq, Structural)]
pub struct Coefficients {
    pub pos_coef: Binary32,
    pub pos_vel_coef: Binary32,
    pub vel_pos_coef: Binary32,
    pub vel_coef: Binary32,
}

/// 1.0.
pub open spec fn one() -> Binary32 {
    Binary32 { bits: ONE_BITS }
}

/// 2.0.
pub open spec fn two() -> Binary32 {
    Binary32 { bits: TWO_BITS }
}

/// The two real roots of an over-damped spring, the faster decay first,
/// and half their distance.
pub open spec fn real_roots(w: Binary32, z: Binary32) -> (Binary32, Binary32, Binary32) {
    let za = w.neg_spec().mul_spec(z);
    let zb = w.mul_spec(z.mul_spec(z).sub_spec(one()).sqrt_spec());
    (za.sub_spec(zb), za.add_spec(zb), zb)
}

/// Decay rate and angular rate of an under-damped spring.
pub open spec fn complex_root(w: Binary32, z: Binary32) -> (Binary32, Binary32) {
    let omega_zeta = w.mul_spec(z);
    let alpha = w.mul_spec(one().sub_spec(z.mul_spec(z)).sqrt_spec());
    (omega_zeta, alpha)
}

/// What the host has to evaluate for a tick of length `dt`.
pub open spec fn arguments_spec(w: Binary32, z: Binary32, dt: Binary32) -> Arguments {
    let zero = Binary32::zero_spec();
    match regime_of(w, z) {
        Regime::Degenerate => Arguments { exp_first: zero, exp_second: zero, angle: zero },
        Regime::OverDamped => {
            let (z1, z2, zb) = real_roots(w, z);
            Arguments {
                exp_first: z1.mul_spec(dt),
                exp_second: z2.mul_spec(dt),
                angle: zero,
            }
        },
        Regime::UnderDamped => {
            let (omega_zeta, alpha) = complex_root(w, z);
            Arguments {
                exp_first: omega_zeta.neg_spec().mul_spec(dt),
                exp_second: zero,
                angle: alpha.mul_spec(dt),
            }
        },
        Regime::CriticallyDamped => Arguments {
            exp_first: w.neg_spec().mul_spec(dt),
            exp_second: zero,
            angle: zero,
        },
    }
}

impl Coefficients {
    /// The coefficients that leave position and velocity as they are.
    pub open spec fn identity_spec() -> Coefficients {
        Coefficients {
            pos_coef: one(),
            pos_vel_coef: Binary32::zero_spec(),
            vel_pos_coef: Binary32::zero_spec(),
            vel_coef: one(),
        }
    }

    /// 1 on the diagonal and a zero off it.
    pub open spec fn is_identity(self) -> bool {
        &&& self.pos_coef == one()
        &&& self.pos_vel_coef.is_zero_spec()
        &&& self.vel_pos_coef.is_zero_spec()
        &&& self.vel_coef == one()
    }

    /// Two distinct real roots `z1` and `z2`: both exponentials, each
    /// divided by the distance `2 * zb` of the roots.
    pub open spec fn over_damped_spec(w: Binary32, z: Binary32, waves: Waves) -> Coefficients {
        let (z1, z2, zb) = real_roots(w, z);
        let e1 = waves.exp_first;
        let e2 = waves.exp_second;
        let inv_two_zb = one().div_spec(two().mul_spec(zb));
        let e1_over_two_zb = e1.mul_spec(inv_two_zb);
        let e2_over_two_zb = e2.mul_spec(inv_two_zb);
        let z1e1_over_two_zb = z1.mul_spec(e1_over_two_zb);
        let z2e2_over_two_zb = z2.mul_spec(e2_over_two_zb);
        Coefficients {
            pos_coef: e1_over_two_zb.mul_spec(z2).sub_spec(z2e2_over_two_zb).add_spec(e2),
            pos_vel_coef: e1_over_two_zb.neg_spec().add_spec(e2_over_two_zb),
            vel_pos_coef: z1e1_over_two_zb.sub_spec(z2e2_over_two_zb).add_spec(e2).mul_spec(z2),
            vel_coef: z1e1_over_two_zb.neg_spec().add_spec(z2e2_over_two_zb),
        }
    }

    /// A pair of complex roots: a decaying envelope times cosine and sine
    /// at the angular rate `alpha`.
    pub open spec fn under_damped_spec(w: Binary32, z: Binary32, waves: Waves) -> Coefficients {
        let (omega_zeta, alpha) = complex_root(w, z);
        let exp_term = waves.exp_first;
        let inv_alpha = one().div_spec(alpha);
        let exp_sin = exp_term.mul_spec(waves.sin);
        let exp_cos = exp_term.mul_spec(waves.cos);
        let exp_omega_zeta_sin_over_alpha = exp_term.mul_spec(omega_zeta).mul_spec(
            waves.sin,
        ).mul_spec(inv_alpha);
        Coefficients {
            pos_coef: exp_cos.add_spec(exp_omega_zeta_sin_over_alpha),
            pos_vel_coef: exp_sin.mul_spec(inv_alpha),
            vel_pos_coef: exp_sin.neg_spec().mul_spec(alpha).sub_spec(
                omega_zeta.mul_spec(exp_omega_zeta_sin_over_alpha),
            ),
            vel_coef: exp_cos.sub_spec(exp_omega_zeta_sin_over_alpha),
        }
    }

    /// The repeated root `-w`: the exponential, and the elapsed time times
    /// the exponential.
    pub open spec fn critically_damped_spec(w: Binary32, dt: Binary32, waves: Waves) -> Coefficients {
        let exp_term = waves.exp_first;
        let time_exp = dt.mul_spec(exp_term);
        let time_exp_freq = time_exp.mul_spec(w);
        Coefficients {
            pos_coef: time_exp_freq.add_spec(exp_term),
            pos_vel_coef: time_exp,
            vel_pos_coef: w.neg_spec().mul_spec(time_exp_freq),
            vel_coef: time_exp_freq.neg_spec().add_spec(exp_term),
        }
    }

    /// The coefficients of a tick of length `dt`, by the regime of the
    /// spring.
    pub open spec fn derive_spec(
        w: Binary32,
        z: Binary32,
        dt: Binary32,
        waves: Waves,
    ) -> Coefficients {
        match regime_of(w, z) {
            Regime::Degenerate => Coefficients::identity_spec(),
            Regime::OverDamped => Coefficients::over_damped_spec(w, z, waves),
            Regime::UnderDamped => Coefficients::under_damped_spec(w, z, waves),
            Regime::CriticallyDamped => Coefficients::critically_damped_spec(w, dt, waves),
        }
    }

    /// Where a spring is after the tick: the position, counted from the
    /// target, and the velocity go through the matrix.
    pub open spec fn position_spec(
        self,
        target: Binary32,
        position: Binary32,
        velocity: Binary32,
    ) -> Binary32 {
        let old_pos = position.sub_spec(target);
        old_pos.mul_spec(self.pos_coef).add_spec(velocity.mul_spec(self.pos_vel_coef)).add_spec(
            target,
        )
    }

    /// How fast a spring moves after the tick.
    pub open spec fn velocity_spec(
        self,
        target: Binary32,
        position: Binary32,
        velocity: Binary32,
    ) -> Binary32 {
        let old_pos = position.sub_spec(target);
        old_pos.mul_spec(self.vel_pos_coef).add_spec(velocity.mul_spec(self.vel_coef))
    }

    /// The coefficients that leave position and velocity as they are.
    pub fn identity() -> (c: Coefficients)
        ensures
            c == Coefficients::identity_spec(),
    {
        Coefficients {
            pos_coef: Binary32 { bits: ONE_BITS },
            pos_vel_coef: Binary32 { bits: ZERO_BITS },
            vel_pos_coef: Binary32 { bits: ZERO_BITS },
            vel_coef: Binary32 { bits: ONE_BITS },
        }
    }

    /// The coefficients of a tick of length `delta_time` for a spring with
    /// angular frequency `w` and damping ratio `z`, from what the host
    /// evaluated on `arguments(w, z, delta_time)`.
    pub fn derive(w: Binary32, z: Binary32, delta_time: Binary32, waves: Waves) -> (c:
        Coefficients)
        ensures
            c == Coefficients::derive_spec(w, z, delta_time, waves),
    {
        let one = Binary32 { bits: ONE_BITS };
        match select(w, z) {
            Regime::Degenerate => Coefficients::identity(),
            Regime::OverDamped => {
                let za = w.neg().mul(z);
                let zb = w.mul(z.mul(z).sub(one).sqrt());
                let z1 = za.sub(zb);
                let z2 = za.add(zb);
                let e1 = waves.exp_first;
                let e2 = waves.exp_second;
                let inv_two_zb = one.div((Binary32 { bits: TWO_BITS }).mul(zb));
                let e1_over_two_zb = e1.mul(inv_two_zb);
                let e2_over_two_zb = e2.mul(inv_two_zb);
                let z1e1_over_two_zb = z1.mul(e1_over_two_zb);
                let z2e2_over_two_zb = z2.mul(e2_over_two_zb);
                Coefficients {
                    pos_coef: e1_over_two_zb.mul(z2).sub(z2e2_over_two_zb).add(e2),
                    pos_vel_coef: e1_over_two_zb.neg().add(e2_over_two_zb),
                    vel_pos_coef: z1e1_over_two_zb.sub(z2e2_over_two_zb).add(e2).mul(z2),
                    vel_coef: z1e1_over_two_zb.neg().add(z2e2_over_two_zb),
                }
            },
            Regime::UnderDamped => {
                let omega_zeta = w.mul(z);
                let alpha = w.mul(one.sub(z.mul(z)).sqrt());
                let exp_term = waves.exp_first;
                let inv_alpha = one.div(alpha);
                let exp_sin = exp_term.mul(waves.sin);
                let exp_cos = exp_term.mul(waves.cos);
                let exp_omega_zeta_sin_over_alpha = exp_term.mul(omega_zeta).mul(waves.sin).mul(
                    inv_alpha,
                );
                Coefficients {
                    pos_coef: exp_cos.add(exp_omega_zeta_sin_over_alpha),
                    pos_vel_coef: exp_sin.mul(inv_alpha),
                    vel_pos_coef: exp_sin.neg().mul(alpha).sub(
                        omega_zeta.mul(exp_omega_zeta_sin_over_alpha),
                    ),
                    vel_coef: exp_cos.sub(exp_omega_zeta_sin_over_alpha),
                }
            },
            Regime::CriticallyDamped => {
                let exp_term = waves.exp_first;
                let time_exp = delta_time.mul(exp_term);
                let time_exp_freq = time_exp.mul(w);
                Coefficients {
                    pos_coef: time_exp_freq.add(exp_term),
                    pos_vel_coef: time_exp,
                    vel_pos_coef: w.neg().mul(time_exp_freq),
                    vel_coef: time_exp_freq.neg().add(exp_term),
                }
            },
        }
    }

    /// The position after the tick.
    pub fn position(self, target: Binary32, position: Binary32, velocity: Binary32) -> (r:
        Binary32)
        ensures
            r == self.position_spec(target, position, velocity),
    {
        let old_pos = position.sub(target);
        old_pos.mul(self.pos_coef).add(velocity.mul(self.pos_vel_coef)).add(target)
    }

    /// The velocity after the tick.
    pub fn velocity(self, target: Binary32, position: Binary32, velocity: Binary32) -> (r:
        Binary32)
        ensures
            r == self.velocity_spec(target, position, velocity),
    {
        let old_pos = position.sub(target);
        old_pos.mul(self.vel_pos_coef).add(velocity.mul(self.vel_coef))
    }
}

/// What the host has to evaluate for a tick of length `delta_time` of a
/// spring with angular frequency `w` and damping ratio `z`.
pub fn arguments(w: Binary32, z: Binary32, delta_time: Binary32) -> (a: Arguments)
    ensures
        a == arguments_spec(w, z, delta_time),
{
    let one = Binary32 { bits: ONE_BITS };
    let zero = Binary32 { bits: ZERO_BITS };
    match select(w, z) {
        Regime::Degenerate => Arguments { exp_first: zero, exp_second: zero, angle: zero },
        Regime::OverDamped => {
            let za = w.neg().mul(z);
            let zb = w.mul(z.mul(z).sub(one).sqrt());
            let z1 = za.sub(zb);
            let z2 = za.add(zb);
            Arguments { exp_first: z1.mul(delta_time), exp_second: z2.mul(delta_time), angle: zero }
        },
        Regime::UnderDamped => {
            let omega_zeta = w.mul(z);
            let alpha = w.mul(one.sub(z.mul(z)).sqrt());
            Arguments {
                exp_first: omega_zeta.neg().mul(delta_time),
                exp_second: zero,
                angle: alpha.mul(delta_time),
            }
        },
        Regime::CriticallyDamped => Arguments {
            exp_first: w.neg().mul(delta_time),
            exp_second: zero,
            angle: zero,
        },
    }
}

/// Over no time at all the coefficients of the critical regime are the
/// identity: 1 on the diagonal, a zero off it.
pub proof fn lemma_critical_at_zero_time(w: Binary32, waves: Waves)
    requires
        w.is_finite_spec(),
        waves.exp_first == one(),
    ensures
        Coefficients::critically_damped_spec(w, Binary32::zero_spec(), waves).is_identity(),
{
    let zero = Binary32::zero_spec();
    lemma_one();
    lemma_zero_patterns(false);
    lemma_mul_one(zero);
    let time_exp = zero.mul_spec(one());
    assert(time_exp == zero);
    lemma_mul_zero(w, zero);
    let time_exp_freq = time_exp.mul_spec(w);
    lemma_add_zero(one(), time_exp_freq);
    lemma_neg(w);
    lemma_mul_zero(w.neg_spec(), time_exp_freq);
    lemma_neg(time_exp_freq);
    lemma_add_zero(one(), time_exp_freq.neg_spec());
}

/// Coefficients that are the identity leave the velocity the number it
/// was, and put the position where taking the target away and adding it
/// again puts it.
pub proof fn lemma_identity_step(
    c: Coefficients,
    target: Binary32,
    position: Binary32,
    velocity: Binary32,
)
    requires
        c.is_identity(),
        target.is_finite_spec(),
        velocity.is_finite_spec(),
        position.sub_spec(target).is_finite_spec(),
    ensures
        same_number(c.velocity_spec(target, position, velocity), velocity),
        same_number(
            c.position_spec(target, position, velocity),
            position.sub_spec(target).add_spec(target),
        ),
{
    let old_pos = position.sub_spec(target);
    lemma_one();
    // velocity
    lemma_mul_zero(old_pos, c.vel_pos_coef);
    lemma_mul_one(velocity);
    let crossed = old_pos.mul_spec(c.vel_pos_coef);
    if velocity.is_zero_spec() {
        lemma_add_zeros(crossed, velocity);
        lemma_magnitude_zero(velocity.bits);
    } else {
        lemma_add_zero(velocity, crossed);
    }
    // position
    lemma_mul_one(old_pos);
    lemma_mul_zero(velocity, c.pos_vel_coef);
    let pushed = velocity.mul_spec(c.pos_vel_coef);
    lemma_add_finite(old_pos, target);
    if old_pos.is_zero_spec() {
        lemma_add_zeros(old_pos, pushed);
        let start = old_pos.add_spec(pushed);
        if target.is_zero_spec() {
            lemma_add_zeros(start, target);
            lemma_add_zeros(old_pos, target);
        } else {
            lemma_add_zero(target, start);
            lemma_add_zero(target, old_pos);
        }
    } else {
        lemma_add_zero(old_pos, pushed);
    }
}

} // verus!
