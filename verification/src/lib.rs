//! An in-memory model of JSON values, built from literal descriptions.
//!
//! * [`value`] holds the tree type [`Json`], the members of its objects and
//!   their mathematical views.
//! * [`number`] models binary64 numbers as bit patterns, [`rounding`] rounds
//!   integers to them, and [`single`] models binary32 numbers and widens them.
//! * [`coerce`] converts native scalars into leaves, one conversion for each
//!   source type.
//! * [`literal`] describes nested literals and builds the tree of one.
//! * [`equality`] compares trees, and [`text`] renders them for diagnostics.
//! * [`gcd`] computes greatest common divisors.

pub mod gcd;
mod arithmetic;
pub mod number;
pub mod rounding;
pub mod single;
pub mod value;
pub mod equality;
pub mod coerce;
pub mod literal;
pub mod text;

pub use crate::gcd::gcd;
pub use crate::literal::{build_from_literal, Literal, Scalar, ShapeError};
pub use crate::number::Double;
pub use crate::single::Single;
pub use crate::text::{expect_equal, Mismatch};
pub use crate::value::{Json, Object};
