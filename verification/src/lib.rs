//! A verified four-stage pipeline that turns a day's irregularly sampled
//! photovoltaic readings into a clean, normalized curve: smoothing,
//! stretching, gap interpolation, and normalization.
//!
//! All values are exact rationals, so every stage's contract states the
//! result of the arithmetic precisely.

pub mod interpolate;
pub mod model;
pub mod normalize;
pub mod pipeline;
pub mod point;
pub mod rat;
pub mod smooth;
pub mod stretch;
