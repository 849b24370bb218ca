//! Sampling of a 360-point hue wheel by single colour judgments.
//!
//! A sampler asks for the colour of one hue at a time and builds a
//! profile that labels every hue of the wheel. Two strategies are offered:
//! plain bisection ([`bisection::BisectionSampler`]) and bisection that
//! infers the colour of a run of hues whose two ends agree
//! ([`interpolation::InterpolationSampler`]).

pub mod color;
pub mod profile;
pub mod queue;
pub mod coverage;
pub mod bisection;
pub mod interpolation;
pub mod sampler;
