//! Randomized partitioning of a collection into disjoint groups.
//!
//! A [`RandomGrouping`] session draws a uniformly random subset of indices
//! without replacement and splits a collection into pairwise disjoint
//! groups, either by explicit per-group sizes or by per-group ratios
//! resolved under a rounding policy. Groups keep the input's original
//! order or come out re-randomized, and a fixed seed makes every run
//! reproducible.

pub mod error;
pub mod grouping;
pub mod ratio;
mod rng;
pub mod size_rounding;
pub mod sized_iter;
pub mod sorting;
pub mod staff;
pub mod sums;

pub mod random_grouping;

pub use crate::error::GroupingError;
pub use crate::random_grouping::RandomGrouping;
pub use crate::ratio::Ratios;
pub use crate::size_rounding::SizeRounding;
pub use crate::sized_iter::SizedIter;
pub use crate::staff::Staff;
