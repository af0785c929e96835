//! Authentication and authorization failures, and the HTTP answer each one
//! maps to.
use vstd::prelude::*;

verus! {

/// The caller could not be authenticated.
#[derive(Debug, Clone, Copy, PartialEq, Eq, Structural)]
pub enum AuthenticationError {
    Failed,
}

/// The caller is authenticated but not allowed to do this.
#[derive(Debug, Clone, Copy, PartialEq, Eq, Structural)]
pub enum AuthorizationError {
    Failed,
}

impl AuthenticationError {
    /// The message shown for this error.
    pub fn message(&self) -> (r: &'static str)
        ensures
            r@ == "Authentication failed"@,
    {
        proof {
            reveal_strlit("Authentication failed");
        }
        match self {
            AuthenticationError::Failed => "Authentication failed",
        }
    }

    /// The HTTP status of the response: 401.
    pub fn status_code(&self) -> (r: u16)
        ensures
            r == 401,
    {
        match self {
            AuthenticationError::Failed => 401,
        }
    }

    /// The error name carried in the response body.
    pub fn error_name(&self) -> (r: &'static str)
        ensures
            r@ == "Unauthorized"@,
    {
        proof {
            reveal_strlit("Unauthorized");
        }
        match self {
            AuthenticationError::Failed => "Unauthorized",
        }
    }
}

impl AuthorizationError {
    /// The message shown for this error.
    pub fn message(&self) -> (r: &'static str)
        ensures
            r@ == "Authorization failed"@,
    {
        proof {
            reveal_strlit("Authorization failed");
        }
        match self {
            AuthorizationError::Failed => "Authorization failed",
        }
    }

    /// The HTTP status of the response: 403.
    pub fn status_code(&self) -> (r: u16)
        ensures
            r == 403,
    {
        match self {
            AuthorizationError::Failed => 403,
        }
    }

    /// The error name carried in the response body.
    pub fn error_name(&self) -> (r: &'static str)
        ensures
            r@ == "Forbidden"@,
    {
        proof {
            reveal_strlit("Forbidden");
        }
        match self {
            AuthorizationError::Failed => "Forbidden",
        }
    }
}

} // verus!
