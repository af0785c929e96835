//! The search module's API description.
use vstd::prelude::*;

verus! {

/// Marker for the search endpoints' OpenAPI document.
#[derive(Debug, Clone, Copy, PartialEq, Eq, Structural, Default)]
pub struct ApiDoc;

} // verus!
