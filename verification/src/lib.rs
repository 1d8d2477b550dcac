//! A damped spring that eases a value toward a moving target, advanced
//! once per tick by the closed form of its motion.
//!
//! Numbers are IEEE 754 binary32 bit patterns, and the arithmetic on them is
//! this crate's own: every sum, product, quotient and square root is the
//! exact result rounded to the nearest, as the standard defines it, so a
//! tick gives the same bits wherever it runs. Exponential, cosine and sine
//! are left to the host, which is told on what to evaluate them and hands
//! the values in.
//!
//! - `binary32`: patterns and their order.
//! - `nearest`, `rounding`: what rounding to the nearest means, and the
//!   function that does it.
//! - `arithmetic`, `algebra`: the operations, and what holds of them.
//! - `regime`: the choice among the forms of motion.
//! - `coefficients`: the closed form of a tick.
//! - `bands`: why the closed form never divides by zero.
//! - `spring`: the springs themselves.

pub mod algebra;
pub mod arithmetic;
pub mod bands;
pub mod binary32;
pub mod coefficients;
pub mod nearest;
pub mod regime;
pub mod rounding;
pub mod spring;
