//! A run-length distance between strings.
//!
//! Each string is grouped into runs, maximal blocks of consecutive equal
//! characters. The runs of the first string fill an accumulator of
//! (net count, character) entries; each run of the second string is
//! subtracted from the first entry for its character, or appended where
//! there is none. The distance is the Euclidean norm of the net counts. The
//! library computes its square, exactly and in integers.
//!
//! - [`runs`]: run-length grouping as mathematics, with its laws.
//! - [`count`]: the grouper, which hands out runs on demand.
//! - [`accumulator`]: the merge and the squared norm.
//! - [`distance`]: the squared distance between two strings, with its laws.
//! - [`symmetry`]: the distance between strings in which every character
//!   forms one block.
pub mod accumulator;
pub mod count;
pub mod distance;
pub mod runs;
pub mod symmetry;

pub use crate::count::Count;
pub use crate::distance::squared_distance;
