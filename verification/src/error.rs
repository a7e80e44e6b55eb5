//! The ways in which a request on the lattice can be turned down.

use vstd::prelude::*;

verus! {

/// Why an operation was refused. Every refusal is decided before any state is
/// touched.
#[derive(Clone, Copy, Debug, PartialEq, Eq, Structural)]
pub enum PercolationError {
    /// A lattice was asked for with a side shorter than one site.
    InvalidSize,
    /// A row or column lies outside `[0, n)`.
    OutOfBounds,
}

} // verus!
