//! Search for Schur colorings: assignments of one of `k` colors to each of
//! the integers `1..=n` such that no `x + y = z` has all three of `x`, `y`
//! and `z` in one color.
//!
//! `coloring` holds the model, `extension` the scan of a single position
//! that all strategies share, `checker` the validity checker, `backtrack`
//! the explicit-stack search that the depth-first strategies run on, and
//! `algorithm` the strategies themselves.

pub mod algorithm;
pub mod args;
pub mod backtrack;
pub mod checker;
pub mod coloring;
pub mod extension;

pub use crate::algorithm::run;
pub use crate::algorithm::simulation::annealing;
pub use crate::args::{Algorithm, Args, ConfigurationError};
pub use crate::checker::{check_coloring, CheckOutcome, ViolationError};
pub use crate::coloring::{short, ColorVec, COLOR_LETTERS};
