//! A stochastic curve-fitting and nearest-point color quantization engine.
//!
//! A weighted set of colors (a histogram of pixel colors) is approximated by a
//! one-dimensional parametric curve embedded in a three-dimensional perceptual
//! color space; arbitrary colors are then re-mapped to the nearest point on the
//! fitted curve.
//!
//! All numeric work is done in signed fixed-point arithmetic (see [`fixed`]),
//! so every conversion, metric and search in this crate is deterministic and
//! exactly specified.

pub mod color;
pub mod curve;
pub mod fixed;
pub mod fit;
pub mod histogram;
pub mod quantize;
pub mod rng;
pub mod trig;
