use vstd::prelude::*;

verus! {

/// The two ways an operation on the percolation model can fail.
///
/// `InvalidSize` is a construction-time failure: a grid or a union-find
/// universe was requested with fewer than one element. `OutOfRange` is a
/// call-time failure: a site coordinate lies outside `[1, rows] x [1, cols]`.
#[derive(Clone, Copy, Debug, PartialEq, Eq, Structural)]
pub enum PercolationError {
    /// A dimension passed at construction was smaller than 1.
    InvalidSize,
    /// A coordinate passed to a query or command was out of bounds.
    OutOfRange,
}

} // verus!
