//! The recoverable failures of the crate.

use vstd::prelude::*;

verus! {

/// Why an operation of this crate refused its input.
#[derive(Clone, Copy, Debug, PartialEq, Eq, Structural)]
pub enum CentralityError {
    /// A node index was not below the number of nodes of the graph.
    IndexOutOfRange,
    /// A degree metric was asked for by a name that is none of
    /// `in-degree`, `out-degree` and `combined`.
    InvalidMetricKind,
    /// More entries were asked for than the result set holds.
    InsufficientResults,
}

} // verus!
