//! Verified core of a real-time audio spectrum visualizer.
//!
//! The pipeline turns fixed-size windows of captured audio samples into a
//! bounded set of perceptually weighted visual frequency buckets and smooths
//! them over time.  All values are carried in fixed-point integer form
//! (multiples of `1 / fixed::FP_ONE`); the host process converts samples on
//! the way in and draw coordinates on the way out.

pub mod analyzer;
pub mod capture;
pub mod fixed;
pub mod mapper;
pub mod pipeline;
pub mod render;
pub mod smoother;
