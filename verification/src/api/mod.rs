pub mod health;
pub mod tracks;
pub mod websocket;

use vstd::prelude::*;

verus! {

/// How the router answers cross-origin requests.
#[derive(Debug, Clone, Copy, PartialEq, Eq)]
pub struct CorsPolicy {
    /// Any origin is allowed (no origin is configured).
    pub any_origin: bool,
    /// Credentials are allowed.
    pub allow_credentials: bool,
}

/// The cross-origin policy for the configured origins: any origin when none
/// is configured, and credentials only if asked for and origins are listed
/// (credentials are never combined with any origin).
pub fn cors_policy(num_origins: usize, allow_credentials: bool) -> (policy: CorsPolicy)
    ensures
        policy.any_origin == (num_origins == 0),
        policy.allow_credentials == (allow_credentials && num_origins > 0),
        !(policy.any_origin && policy.allow_credentials),
{
    let any_origin = num_origins == 0;
    CorsPolicy { any_origin, allow_credentials: allow_credentials && !any_origin }
}

} // verus!
