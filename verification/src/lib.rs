//! A learned index over sorted `u64` keys: a greedy spline corridor whose
//! segments are located through a radix table of key prefixes.
//!
//! Keys are added in order to a [`RadixSplineBuilder`]; the [`RadixSpline`]
//! it builds answers, for a key, the range of positions in which to look
//! for it.

pub mod builder;
pub mod corridor;
pub mod orientation;
pub mod radix;
pub mod shift;
pub mod spline;

pub use builder::{BuilderView, RadixSplineBuilder};
pub use orientation::{compute_orientation, Orientation};
pub use shift::num_shift_bits;
pub use spline::{RadixSpline, RadixSplineSearchBound, SplineView};
