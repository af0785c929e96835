use trustify_graph::auth::{AuthenticationError, AuthorizationError};

#[test]
fn authentication_failure_maps_to_unauthorized() {
    let e = AuthenticationError::Failed;
    assert_eq!(e.message(), "Authentication failed");
    assert_eq!(e.status_code(), 401);
    assert_eq!(e.error_name(), "Unauthorized");
}

#[test]
fn authorization_failure_maps_to_forbidden() {
    let e = AuthorizationError::Failed;
    assert_eq!(e.message(), "Authorization failed");
    assert_eq!(e.status_code(), 403);
    assert_eq!(e.error_name(), "Forbidden");
}
