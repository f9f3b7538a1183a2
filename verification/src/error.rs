//! The errors the library reports.

use vstd::prelude::*;

verus! {

/// Why an operation on a graph was refused.
#[derive(Copy, Clone, Debug, PartialEq, Eq, Structural)]
pub enum GraphError {
    /// A change record names no path.
    InvalidRecord,
    /// An edge carries a negative weight where a distance is needed.
    InvalidWeight,
    /// A node has more shortest paths than a `u64` can count.
    PathCountOverflow,
}

} // verus!
