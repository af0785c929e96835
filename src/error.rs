use vstd::prelude::*;

verus! {

/// Errors raised by the graph's operations.
#[derive(Debug, Clone, Copy, PartialEq, Eq, Structural)]
pub enum GraphError {
    /// A package reference that could not be decoded, or that lacks a part
    /// (such as its version) that identity resolution needs.
    InvalidReference,
    /// An SBOM, package or CPE handle that does not belong to the graph.
    NotFound,
}

} // verus!
