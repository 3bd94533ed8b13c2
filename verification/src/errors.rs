//! Error kinds raised by the core, independent of any transport mapping.
//!
//! User-attributable errors surface to the caller unchanged; internal
//! errors are surfaced opaquely by the embedding layer.

use vstd::prelude::*;

verus! {

/// Failures of collaborators the core depends on (stores, blobs, codecs).
#[derive(Clone, Copy, Debug, PartialEq, Eq, Structural)]
pub enum InternalError {
    StoreUnavailable,
    BlobUnavailable,
    ThumbnailDecodeError,
    ThumbnailEncodeError,
    Base64DecodeError,
    UnexpectedInvariantViolation,
}

/// Every error the core's operations can return.
#[derive(Clone, Copy, Debug, PartialEq, Eq, Structural)]
pub enum UserError {
    ProjectNotFoundError,
    RoleNotFoundError,
    InviteNotFoundError,
    GroupNotFoundError,
    UserNotFoundError,
    ServiceHostNotFoundError,
    ThumbnailNotFoundError,
    GroupExistsError,
    InviteAlreadyExistsError,
    ServiceHostAlreadyAuthorizedError,
    CannotDeleteLastRoleError,
    InvalidNameError,
    InvalidClientIdError,
    PermissionsError,
    InternalError(InternalError),
}

} // verus!
