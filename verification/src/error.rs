//! The ways in which an operation of this library can fail.

use vstd::prelude::*;

verus! {

/// Why a request could not be served.
#[derive(Clone, Copy, Debug, PartialEq, Eq, Structural)]
pub enum GraphError {
    /// An edge record does not hold two node identifiers.
    MalformedRecord,
    /// The graph has no edge, so there is nothing to average over.
    EmptyGraph,
}

} // verus!
