//! A verified package identity and relationship graph: canonical package
//! identities, dependency edges with transitive closure, and SBOM-scoped
//! relationship edges.

pub mod advisory;
pub mod auth;
pub mod cache;
pub mod closure;
pub mod error;
pub mod package;
pub mod purl;
pub mod relationships;
pub mod sbom;
pub mod search;
pub mod system;
