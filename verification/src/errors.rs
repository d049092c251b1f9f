//! Error taxonomy of the registry, and its mapping to transport status codes.

use vstd::prelude::*;

verus! {

/// A request-level failure of the registry API.
#[derive(Clone, Copy, Debug, PartialEq, Eq, Structural)]
pub enum ApiError {
    /// The announcing relay is not a member of the topology.
    UnauthorizedPublisher,
    /// A key already holds different content; it is never overwritten.
    Conflict,
    /// A lookup, revoke or refresh matched no stored record.
    NotFound,
    /// The external store was unreachable or failed a command.
    StoreUnavailable,
}

/// A startup-time failure while building the topology; the process must not
/// serve traffic after one of these.
#[derive(Clone, Copy, Debug, PartialEq, Eq, Structural)]
pub enum ConfigError {
    /// A traversal root is not a member of the node set.
    UnknownNode,
    /// An edge endpoint does not appear in the node set.
    DanglingEdge,
    /// A relay identifier is not a decimal port number.
    BadRelayId,
}

impl ApiError {
    /// The HTTP status code this error is reported with.
    pub fn status_code(&self) -> (code: u16)
        ensures
            code == match *self {
                ApiError::UnauthorizedPublisher => 400u16,
                ApiError::Conflict => 409u16,
                ApiError::NotFound => 404u16,
                ApiError::StoreUnavailable => 500u16,
            },
    {
        match *self {
            ApiError::UnauthorizedPublisher => 400,
            ApiError::Conflict => 409,
            ApiError::NotFound => 404,
            ApiError::StoreUnavailable => 500,
        }
    }
}

} // verus!
