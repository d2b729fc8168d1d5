//! Orientation error between 3D rotations, in Q32.32 fixed-point arithmetic.
//!
//! Rotations, rotation vectors and angles are carried as signed 64-bit
//! integers that count units of 2^-32; intermediate products are taken in
//! 128 bits and rounded once, to the nearest unit. Axes, of which only the
//! direction counts, and the vectors of a projection are scaled vectors:
//! digits of 40 bits and the power of two that they count. Contracts state
//! each result as an exact integer expression, so that rounding is part of
//! what is specified, and the lemmas beside them state what the results
//! have of the real quantities, with the bound of what rounding took.
//!
//! - [`metrics`]: the angle between two orientations, and its parts of
//!   swing and twist about an axis.
//! - [`swing_twist`]: the decomposition of a rotation into swing and twist.
//! - [`log_exp`]: the maps between unit quaternions and rotation vectors.
//! - [`scaled`]: vectors of any size, their orthogonal projection, and the
//!   axis that a vector gives.
//! - [`vector`] and [`quaternion`]: fixed-point vectors, unit quaternions
//!   and their composition.
//! - [`validate`]: checks on values that come from outside.
//! - [`trig`], [`normalize`], [`fixed`]: sine, cosine and arc cosine,
//!   normalizing, rounded division and square roots.
//! - [`algebra`], [`arith`]: the model over the integers, and the facts
//!   about products that the proofs rest on.

pub mod algebra;
pub mod arith;
pub mod fixed;
pub mod log_exp;
pub mod metrics;
pub mod normalize;
pub mod quaternion;
pub mod scaled;
pub mod swing_twist;
pub mod trig;
pub mod validate;
pub mod vector;
