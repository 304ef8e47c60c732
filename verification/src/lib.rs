//! Approximate equality of floating-point numbers, with every comparison
//! proved against the arithmetic of the binary interchange formats.
//!
//! Two numbers are *relatively equal* where they are equal, or within an
//! absolute tolerance of each other, or within a tolerance that grows with
//! the larger of the two: `|a - b| <= max_relative * max(|a|, |b|)`.  The
//! trait [`RelativeEq`] states that comparison, [`AbsDiffEq`] the plain one
//! within an absolute tolerance, and both are carried from numbers to
//! references, slices, complex numbers and wrapped numbers.
//!
//! Numbers are held as their bit patterns, in [`Binary32`] and [`Binary64`].
//! A pattern denotes a [`Value`]: a NaN, an infinity, or a whole number of
//! units, the unit being the least positive subnormal of the format.  The
//! difference and the product that the comparison needs are computed on
//! the patterns in integer arithmetic and proved to be the exact results
//! rounded to nearest, ties to even; so a comparison decides what the same
//! comparison in the arithmetic of the machine decides.

pub mod abs_diff_eq;
pub mod arith;
pub mod binary;
pub mod compare;
pub mod complex;
pub mod format;
pub mod ordered;
pub mod power;
pub mod relative_eq;
pub mod rounding;

pub use abs_diff_eq::AbsDiffEq;
pub use binary::{Binary32, Binary64, Float};
pub use format::{Format, Value};
pub use ordered::{FloatIsNan, NotNan};
pub use relative_eq::RelativeEq;
