//! Stored advisories and the query of an advisory upload.
use vstd::prelude::*;

verus! {

/// A stored advisory document. Times are seconds since the Unix epoch.
#[derive(Debug, Clone, PartialEq, Eq)]
pub struct Model {
    pub id: i32,
    pub identifier: String,
    pub location: String,
    pub sha256: String,
    pub published: Option<i64>,
    pub modified: Option<i64>,
    pub withdrawn: Option<i64>,
    pub title: Option<String>,
}

/// The query part of an advisory upload: where the document came from
/// (the base source, not the full document URL) and, optionally, its format.
#[derive(Debug, Clone)]
pub struct UploadAdvisoryQuery {
    pub location: String,
    pub format: Option<String>,
}

} // verus!
