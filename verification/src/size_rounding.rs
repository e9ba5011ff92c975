//! Provider of [`SizeRounding`].

use vstd::prelude::*;

verus! {

/// Rounding strategy used when group ratios are converted to group sizes.
///
/// A group size is the product of the collection length and the group's
/// ratio, which is in general not an integer; each strategy turns those
/// products into integers in a different deterministic way.
#[derive(Debug, Copy, Clone, Eq, PartialEq, Structural)]
pub enum SizeRounding {
    /// Every size is the product rounded down independently.
    ///
    /// Equal ratios always yield equal sizes, but the total allocated
    /// may fall short of the ratio total.
    Floor,

    /// Every product is rounded half-up independently and the running
    /// total is clamped to the collection length, so only the groups at
    /// the tail absorb the clamping.
    Tail,

    /// Cumulative ratio totals are rounded half-up and sizes are their
    /// differences, so the overall total tracks the ratio total closely
    /// even though equal ratios may yield unequal sizes.
    Each,
}

} // verus!
