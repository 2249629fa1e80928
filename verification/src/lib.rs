//! An owned, mutable path buffer with a terse "divide" join operation.
//!
//! [`PathDiv`] wraps a growable text buffer that holds a path written with
//! the `/` separator convention. Segments are joined with [`PathDiv::div`],
//! [`PathDiv::div_ref`] and [`PathDiv::div_assign`], all of which follow the
//! same push rule, including the rule that an absolute segment replaces the
//! whole buffer. Equality is decided over the decomposed sequence of path
//! components rather than over the raw text.

pub mod model;
pub mod pathdiv;

pub use pathdiv::NoError;
pub use pathdiv::PathDiv;
