//! Windowed comparison of two bedMethyl-style pileups.
//!
//! A chromosome-length table and a window size yield a plan of equal-sized
//! windows tiling each chromosome ([`plan`]).  For every window, the records
//! that an indexed query returns for each of the two pileups reduce to the
//! mean of their 11th field, with `nan` records excluded ([`aggregate`]).
//! The two means combine under a comparison mode — difference or quotient —
//! into at most one exact rational value per window ([`compare`]).
//!
//! All values are held as integers in nano-percent, so every step is exact;
//! rendering a value as a decimal for output is left to the caller.  Opening
//! the pileups, running the indexed queries, and writing the emitted lines
//! are the caller's business too: this crate holds the logic alone.

use vstd::prelude::*;

pub mod aggregate;
pub mod cli;
pub mod compare;
pub mod plan;
pub mod text;

pub use aggregate::AggError;
pub use aggregate::Stat;
pub use cli::Args;
pub use cli::Mode;
pub use compare::Value;
pub use compare::compare;
pub use compare::window_value;
pub use plan::Window;
pub use plan::plan_windows;

verus! {

} // verus!
