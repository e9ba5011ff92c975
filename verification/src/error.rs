//! Provider of [`GroupingError`].

use vstd::prelude::*;

verus! {

/// Why a partition request was rejected.
///
/// All three are caller-contract violations: the call fails before any
/// randomness is consumed and no partial grouping is returned.
#[derive(Debug, Clone, Copy, PartialEq, Eq, Structural)]
pub enum GroupingError {
    /// The requested group sizes add up to more than the input length.
    Oversubscribed,
    /// A ratio vector does not denote real ratios: its scale is zero or
    /// a weight is negative.
    InvalidRatio,
    /// The ratios add up to more than one.
    RatioOverflow,
}

} // verus!
