//! Which API requests need a signed-in session.

use vstd::prelude::*;
use crate::text::{has_prefix, starts_with};

verus! {

/// The middleware factory that guards the API.
pub struct RequireAuth;

/// The guard around one service.
pub struct RequireAuthMiddleware<S> {
    pub service: S,
}

/// What the guard does with a request.
#[derive(PartialEq, Eq, Structural, Debug, Clone, Copy)]
pub enum Access {
    /// An authentication endpoint: always served.
    Public,
    /// A valid session: served.
    Allowed,
    /// No valid session: answered 401.
    Unauthorized,
}

impl RequireAuth {
    /// The guard for `service`.
    pub fn new_transform<S>(&self, service: S) -> (m: RequireAuthMiddleware<S>)
        ensures
            m.service == service,
    {
        RequireAuthMiddleware { service }
    }
}

/// Paths below `/api/auth/` are public.
pub open spec fn is_public_path(path: Seq<char>) -> bool {
    has_prefix(path, "/api/auth/"@)
}

impl<S> RequireAuthMiddleware<S> {
    /// The decision for a request to `path`; `has_session` says whether its
    /// session cookie names a stored session.
    pub fn access(&self, path: &str, has_session: bool) -> (a: Access)
        ensures
            is_public_path(path@) ==> a == Access::Public,
            !is_public_path(path@) && has_session ==> a == Access::Allowed,
            !is_public_path(path@) && !has_session ==> a == Access::Unauthorized,
    {
        if starts_with(path, "/api/auth/") {
            Access::Public
        } else if has_session {
            Access::Allowed
        } else {
            Access::Unauthorized
        }
    }
}

} // verus!
