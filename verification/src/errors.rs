//! Errors reported to the clients of the service.
use vstd::prelude::*;

verus! {

/// An error answered to an HTTP client, with its message.
#[derive(Debug, PartialEq, Eq)]
pub enum AppError {
    /// The request is well formed but its content is refused.
    Validation(String),
    /// The request cannot be read.
    BadRequest(String),
    /// The addressed resource does not exist.
    NotFound,
    /// The service is in an unexpected state.
    Internal(String),
    /// The object store failed.
    Storage(String),
}

} // verus!
