//! Springs on a line and in the plane.
//!
//! A spring owns its parameters and its state. Once per tick the host asks
//! for the `arguments` of the tick, evaluates exponential, cosine and sine
//! on them, and hands the values to `update`, which moves the spring over
//! the elapsed time in one exact step of the closed form.

use crate::algebra::same_number;
use crate::bands::{
    lemma_over_damped_divisor, lemma_under_damped_at_zero_time, lemma_under_damped_divisor,
};
use crate::binary32::Binary32;
use crate::coefficients::{
    Arguments, Coefficients, Waves, arguments, arguments_spec, complex_root,
    lemma_critical_at_zero_time, lemma_identity_step, one, real_roots, two,
};
use crate::regime::{Regime, epsilon, regime_of, select};
use vstd::prelude::*;

verus! {

/// A point of the plane, or a displacement in it.
#[derive(Clone, Copy, Debug, PartialEq, Eq, Structural)]
pub struct Point {
    pub x: Binary32,
    pub y: Binary32,
}

impl Point {
    /// The origin, both coordinates +0.0.
    pub open spec fn zero_spec() -> Point {
        Point { x: Binary32::zero_spec(), y: Binary32::zero_spec() }
    }

    /// The sum, coordinate by coordinate.
    pub open spec fn add_spec(self, other: Point) -> Point {
        Point { x: self.x.add_spec(other.x), y: self.y.add_spec(other.y) }
    }

    /// The origin.
    pub fn zero() -> (r: Point)
        ensures
            r == Point::zero_spec(),
    {
        Point { x: Binary32::zero(), y: Binary32::zero() }
    }

    /// `self + other`.
    pub fn add(self, other: Point) -> (r: Point)
        ensures
            r == self.add_spec(other),
    {
        Point { x: self.x.add(other.x), y: self.y.add(other.y) }
    }
}

/// A spring that pulls one number toward a target.
#[derive(Clone, Copy, Debug, PartialEq, Eq, Structural)]
pub struct Spring {
    pub angular_frequency: Binary32,
    pub damping_ratio: Binary32,
    pub target: Binary32,
    pub position: Binary32,
    pub velocity: Binary32,
}

impl Spring {
    /// Neither parameter is below zero.
    pub open spec fn wf(self) -> bool {
        &&& !self.angular_frequency.lt_spec(Binary32::zero_spec())
        &&& !self.damping_ratio.lt_spec(Binary32::zero_spec())
    }

    /// A spring at rest at zero, with both parameters clamped.
    pub open spec fn new_spec(
        target: Binary32,
        angular_freq: Binary32,
        damping_ratio: Binary32,
    ) -> Spring {
        Spring {
            angular_frequency: angular_freq.clamp_non_negative_spec(),
            damping_ratio: damping_ratio.clamp_non_negative_spec(),
            target,
            position: Binary32::zero_spec(),
            velocity: Binary32::zero_spec(),
        }
    }

    /// The regime that the parameters select.
    pub open spec fn regime_spec(self) -> Regime {
        regime_of(self.angular_frequency, self.damping_ratio)
    }

    /// The spring after `goal` was added to its position.
    pub open spec fn shoved(self, goal: Binary32) -> Spring {
        Spring { position: self.position.add_spec(goal), ..self }
    }

    /// The spring after a tick of length `delta_time`: unchanged in the
    /// degenerate regime; in every other, position and velocity taken
    /// through the coefficients of the tick.
    pub open spec fn updated(self, delta_time: Binary32, waves: Waves) -> Spring {
        if self.regime_spec() == Regime::Degenerate {
            self
        } else {
            let c = Coefficients::derive_spec(
                self.angular_frequency,
                self.damping_ratio,
                delta_time,
                waves,
            );
            Spring {
                position: c.position_spec(self.target, self.position, self.velocity),
                velocity: c.velocity_spec(self.target, self.position, self.velocity),
                ..self
            }
        }
    }

    /// A spring at rest at zero that is pulled toward `target`.
    pub fn new(target: Binary32, angular_freq: Binary32, damping_ratio: Binary32) -> (s: Spring)
        ensures
            s == Spring::new_spec(target, angular_freq, damping_ratio),
            s.wf(),
    {
        let mut new_spring = Spring {
            angular_frequency: Binary32::zero(),
            damping_ratio: Binary32::zero(),
            target,
            position: Binary32::zero(),
            velocity: Binary32::zero(),
        };
        new_spring.set_angular(angular_freq);
        new_spring.set_damping(damping_ratio);
        new_spring
    }

    /// Stores the damping ratio, +0.0 in place of a negative one.
    pub fn set_damping(&mut self, ratio: Binary32)
        ensures
            *final(self) == (Spring {
                damping_ratio: ratio.clamp_non_negative_spec(),
                ..*old(self)
            }),
            !final(self).damping_ratio.lt_spec(Binary32::zero_spec()),
    {
        self.damping_ratio = ratio.clamp_non_negative();
    }

    /// Stores the angular frequency, +0.0 in place of a negative one.
    pub fn set_angular(&mut self, angle: Binary32)
        ensures
            *final(self) == (Spring {
                angular_frequency: angle.clamp_non_negative_spec(),
                ..*old(self)
            }),
            !final(self).angular_frequency.lt_spec(Binary32::zero_spec()),
    {
        self.angular_frequency = angle.clamp_non_negative();
    }

    /// Adds `goal` to the position. Velocity and target stay.
    pub fn shove(&mut self, goal: Binary32)
        ensures
            *final(self) == old(self).shoved(goal),
    {
        self.position = self.position.add(goal);
    }

    /// The regime of the next tick.
    pub fn regime(&self) -> (r: Regime)
        ensures
            r == self.regime_spec(),
    {
        select(self.angular_frequency, self.damping_ratio)
    }

    /// What the host has to evaluate before `update` can take a tick of
    /// length `delta_time`.
    pub fn arguments(&self, delta_time: Binary32) -> (a: Arguments)
        ensures
            a == arguments_spec(self.angular_frequency, self.damping_ratio, delta_time),
    {
        arguments(self.angular_frequency, self.damping_ratio, delta_time)
    }

    /// Takes the spring over a tick of length `delta_time`. `waves` holds
    /// what the host evaluated on `self.arguments(delta_time)`. A spring
    /// whose angular frequency is below the tolerance stays exactly as it
    /// is. Parameters and target are never touched.
    pub fn update(&mut self, delta_time: Binary32, waves: Waves)
        ensures
            *final(self) == old(self).updated(delta_time, waves),
            old(self).angular_frequency.lt_spec(epsilon()) ==> *final(self) == *old(self),
            final(self).angular_frequency == old(self).angular_frequency,
            final(self).damping_ratio == old(self).damping_ratio,
            final(self).target == old(self).target,
    {
        if self.regime() == Regime::Degenerate {
            return ;
        }
        let c = Coefficients::derive(self.angular_frequency, self.damping_ratio, delta_time, waves);
        let position = c.position(self.target, self.position, self.velocity);
        let velocity = c.velocity(self.target, self.position, self.velocity);
        self.position = position;
        self.velocity = velocity;
    }
}

/// A spring that pulls a point of the plane toward a target. Both axes share
/// one angular frequency and one damping ratio, and so one set of
/// coefficients.
#[derive(Clone, Copy, Debug, PartialEq, Eq, Structural)]
pub struct SpringVec {
    pub angular_frequency: Binary32,
    pub damping_ratio: Binary32,
    pub target: Point,
    pub position: Point,
    pub velocity: Point,
}

impl SpringVec {
    /// Neither parameter is below zero.
    pub open spec fn wf(self) -> bool {
        &&& !self.angular_frequency.lt_spec(Binary32::zero_spec())
        &&& !self.damping_ratio.lt_spec(Binary32::zero_spec())
    }

    /// A spring at rest at the origin, with both parameters clamped.
    pub open spec fn new_spec(
        target: Point,
        angular_freq: Binary32,
        damping_ratio: Binary32,
    ) -> SpringVec {
        SpringVec {
            angular_frequency: angular_freq.clamp_non_negative_spec(),
            damping_ratio: damping_ratio.clamp_non_negative_spec(),
            target,
            position: Point::zero_spec(),
            velocity: Point::zero_spec(),
        }
    }

    /// The regime that the parameters select.
    pub open spec fn regime_spec(self) -> Regime {
        regime_of(self.angular_frequency, self.damping_ratio)
    }

    /// The spring after `goal` was added to its position.
    pub open spec fn shoved(self, goal: Point) -> SpringVec {
        SpringVec { position: self.position.add_spec(goal), ..self }
    }

    /// The spring with another target.
    pub open spec fn with_target(self, new_target: Point) -> SpringVec {
        SpringVec { target: new_target, ..self }
    }

    /// The spring after a tick of length `delta_time`: unchanged in the
    /// degenerate regime; in every other, position and velocity taken
    /// through the coefficients of the tick, the same for both axes.
    pub open spec fn updated(self, delta_time: Binary32, waves: Waves) -> SpringVec {
        if self.regime_spec() == Regime::Degenerate {
            self
        } else {
            let c = Coefficients::derive_spec(
                self.angular_frequency,
                self.damping_ratio,
                delta_time,
                waves,
            );
            SpringVec {
                position: Point {
                    x: c.position_spec(self.target.x, self.position.x, self.velocity.x),
                    y: c.position_spec(self.target.y, self.position.y, self.velocity.y),
                },
                velocity: Point {
                    x: c.velocity_spec(self.target.x, self.position.x, self.velocity.x),
                    y: c.velocity_spec(self.target.y, self.position.y, self.velocity.y),
                },
                ..self
            }
        }
    }

    /// The scalar spring that moves along the first axis.
    pub open spec fn axis_x(self) -> Spring {
        Spring {
            angular_frequency: self.angular_frequency,
            damping_ratio: self.damping_ratio,
            target: self.target.x,
            position: self.position.x,
            velocity: self.velocity.x,
        }
    }

    /// The scalar spring that moves along the second axis.
    pub open spec fn axis_y(self) -> Spring {
        Spring {
            angular_frequency: self.angular_frequency,
            damping_ratio: self.damping_ratio,
            target: self.target.y,
            position: self.position.y,
            velocity: self.velocity.y,
        }
    }

    /// A spring at rest at the origin that is pulled toward `target`.
    pub fn new(target: Point, angular_freq: Binary32, damping_ratio: Binary32) -> (s: SpringVec)
        ensures
            s == SpringVec::new_spec(target, angular_freq, damping_ratio),
            s.wf(),
    {
        let mut new_spring = SpringVec {
            angular_frequency: Binary32::zero(),
            damping_ratio: Binary32::zero(),
            target,
            position: Point::zero(),
            velocity: Point::zero(),
        };
        new_spring.set_angular(angular_freq);
        new_spring.set_damping(damping_ratio);
        new_spring
    }

    /// Stores the damping ratio, +0.0 in place of a negative one.
    pub fn set_damping(&mut self, ratio: Binary32)
        ensures
            *final(self) == (SpringVec {
                damping_ratio: ratio.clamp_non_negative_spec(),
                ..*old(self)
            }),
            !final(self).damping_ratio.lt_spec(Binary32::zero_spec()),
    {
        self.damping_ratio = ratio.clamp_non_negative();
    }

    /// Stores the angular frequency, +0.0 in place of a negative one.
    pub fn set_angular(&mut self, angle: Binary32)
        ensures
            *final(self) == (SpringVec {
                angular_frequency: angle.clamp_non_negative_spec(),
                ..*old(self)
            }),
            !final(self).angular_frequency.lt_spec(Binary32::zero_spec()),
    {
        self.angular_frequency = angle.clamp_non_negative();
    }

    /// Replaces the target. The spring is not moved: position and velocity
    /// are what they were.
    pub fn set_target(&mut self, new_target: Point)
        ensures
            *final(self) == old(self).with_target(new_target),
            final(self).position == old(self).position,
            final(self).velocity == old(self).velocity,
    {
        self.target = new_target;
    }

    /// Adds `goal` to the position. Velocity and target stay.
    pub fn shove(&mut self, goal: Point)
        ensures
            *final(self) == old(self).shoved(goal),
    {
        self.position = self.position.add(goal);
    }

    /// The regime of the next tick.
    pub fn regime(&self) -> (r: Regime)
        ensures
            r == self.regime_spec(),
    {
        select(self.angular_frequency, self.damping_ratio)
    }

    /// What the host has to evaluate before `update` can take a tick of
    /// length `delta_time`.
    pub fn arguments(&self, delta_time: Binary32) -> (a: Arguments)
        ensures
            a == arguments_spec(self.angular_frequency, self.damping_ratio, delta_time),
    {
        arguments(self.angular_frequency, self.damping_ratio, delta_time)
    }

    /// Takes the spring over a tick of length `delta_time`. `waves` holds
    /// what the host evaluated on `self.arguments(delta_time)`. A spring
    /// whose angular frequency is below the tolerance stays exactly as it
    /// is. Parameters and target are never touched.
    pub fn update(&mut self, delta_time: Binary32, waves: Waves)
        ensures
            *final(self) == old(self).updated(delta_time, waves),
            old(self).angular_frequency.lt_spec(epsilon()) ==> *final(self) == *old(self),
            final(self).angular_frequency == old(self).angular_frequency,
            final(self).damping_ratio == old(self).damping_ratio,
            final(self).target == old(self).target,
    {
        if self.regime() == Regime::Degenerate {
            return ;
        }
        let c = Coefficients::derive(self.angular_frequency, self.damping_ratio, delta_time, waves);
        let position = Point {
            x: c.position(self.target.x, self.position.x, self.velocity.x),
            y: c.position(self.target.y, self.position.y, self.velocity.y),
        };
        let velocity = Point {
            x: c.velocity(self.target.x, self.position.x, self.velocity.x),
            y: c.velocity(self.target.y, self.position.y, self.velocity.y),
        };
        self.position = position;
        self.velocity = velocity;
    }
}

/// A spring whose angular frequency is below the tolerance is left as it
/// is by a tick, whatever the elapsed time, the damping ratio and the values
/// that the host hands in.
pub proof fn lemma_degenerate_identity(s: Spring, v: SpringVec, delta_time: Binary32, waves: Waves)
    ensures
        s.angular_frequency.lt_spec(epsilon()) ==> s.updated(delta_time, waves) == s,
        v.angular_frequency.lt_spec(epsilon()) ==> v.updated(delta_time, waves) == v,
{
}

/// A tick of a spring whose damping ratio is not negative never divides by
/// zero: where the closed form divides at all, the divisor is no zero.
pub proof fn lemma_no_division_by_zero(s: Spring)
    requires
        !s.damping_ratio.lt_spec(Binary32::zero_spec()),
    ensures
        s.regime_spec() == Regime::OverDamped ==> !two().mul_spec(
            real_roots(s.angular_frequency, s.damping_ratio).2,
        ).is_zero_spec(),
        s.regime_spec() == Regime::UnderDamped ==> !complex_root(
            s.angular_frequency,
            s.damping_ratio,
        ).1.is_zero_spec(),
{
    if s.regime_spec() == Regime::OverDamped {
        lemma_over_damped_divisor(s.angular_frequency, s.damping_ratio);
    } else if s.regime_spec() == Regime::UnderDamped {
        lemma_under_damped_divisor(s.angular_frequency, s.damping_ratio);
    }
}

/// What the host evaluates where no time has passed: the exponential and
/// the cosine of 0 are 1, the sine of 0 is 0.
pub open spec fn waves_at_zero() -> Waves {
    Waves { exp_first: one(), exp_second: one(), cos: one(), sin: Binary32::zero_spec() }
}

/// A tick of no time is the identity as far as rounding allows, in the
/// critical regime and, for a damping ratio that is not negative, in the
/// under-damped one: the velocity stays the number it was, and the
/// position is what taking the target away and adding it again gives.
pub proof fn lemma_zero_time(s: Spring)
    requires
        s.regime_spec() == Regime::CriticallyDamped || s.regime_spec() == Regime::UnderDamped,
        !s.damping_ratio.lt_spec(Binary32::zero_spec()),
        s.angular_frequency.is_finite_spec(),
        s.target.is_finite_spec(),
        s.velocity.is_finite_spec(),
        s.position.sub_spec(s.target).is_finite_spec(),
    ensures
        same_number(s.updated(Binary32::zero_spec(), waves_at_zero()).velocity, s.velocity),
        same_number(
            s.updated(Binary32::zero_spec(), waves_at_zero()).position,
            s.position.sub_spec(s.target).add_spec(s.target),
        ),
        s.position.sub_spec(s.target).add_spec(s.target) == s.position ==> same_number(
            s.updated(Binary32::zero_spec(), waves_at_zero()).position,
            s.position,
        ),
{
    let waves = waves_at_zero();
    if s.regime_spec() == Regime::CriticallyDamped {
        lemma_critical_at_zero_time(s.angular_frequency, waves);
    } else {
        lemma_under_damped_at_zero_time(s.angular_frequency, s.damping_ratio, waves);
    }
    let c = Coefficients::derive_spec(
        s.angular_frequency,
        s.damping_ratio,
        Binary32::zero_spec(),
        waves,
    );
    lemma_identity_step(c, s.target, s.position, s.velocity);
}

/// A shove followed by a new target leaves the position where the shove
/// put it, and the target is the new one.
pub proof fn lemma_shove_then_set_target(s: SpringVec, goal: Point, new_target: Point)
    ensures
        s.shoved(goal).with_target(new_target).position == s.shoved(goal).position,
        s.shoved(goal).with_target(new_target).position == s.position.add_spec(goal),
        s.shoved(goal).with_target(new_target).target == new_target,
        s.shoved(goal).with_target(new_target).velocity == s.velocity,
{
}

/// Each axis of a planar spring is the scalar spring with the same
/// parameters: constructing, shoving, choosing the regime, asking for the
/// arguments and taking a tick act on an axis as the scalar operation does
/// on that axis's values.
pub proof fn lemma_axis_parity(
    s: SpringVec,
    target: Point,
    angular_freq: Binary32,
    damping_ratio: Binary32,
    goal: Point,
    delta_time: Binary32,
    waves: Waves,
)
    ensures
        SpringVec::new_spec(target, angular_freq, damping_ratio).axis_x() == Spring::new_spec(
            target.x,
            angular_freq,
            damping_ratio,
        ),
        SpringVec::new_spec(target, angular_freq, damping_ratio).axis_y() == Spring::new_spec(
            target.y,
            angular_freq,
            damping_ratio,
        ),
        s.shoved(goal).axis_x() == s.axis_x().shoved(goal.x),
        s.shoved(goal).axis_y() == s.axis_y().shoved(goal.y),
        s.regime_spec() == s.axis_x().regime_spec(),
        s.regime_spec() == s.axis_y().regime_spec(),
        s.updated(delta_time, waves).axis_x() == s.axis_x().updated(delta_time, waves),
        s.updated(delta_time, waves).axis_y() == s.axis_y().updated(delta_time, waves),
{
}

} // verus!
