//! The error taxonomy of the wallet service.
//!
//! Every operation reports a specific error kind, so callers can tell
//! "retry with a different name" from "fix the credentials" from
//! "register the backend type first".

use vstd::prelude::*;

verus! {

/// Errors surfaced by the wallet service and its collaborators.
#[derive(Debug)]
pub enum WalletError {
    /// The requested backend type is not registered.
    UnknownType(String),
    /// A wallet with this name already exists (or the type name is taken).
    AlreadyExists(String),
    /// No wallet (or no key) under this name.
    NotFound(String),
    /// A persisted record was present but malformed.
    Corrupted(String),
    /// The supplied credentials do not open this wallet.
    AuthenticationFailed(String),
    /// The handle does not refer to a live session.
    InvalidHandle(u64),
    /// A storage-layer failure (including handle-space exhaustion).
    IOError(String),
    /// An opaque failure reported by a backend implementation.
    BackendError(String),
    /// The wallet still has open sessions, so it cannot be deleted.
    ResourceBusy(String),
}

impl WalletError {
    /// A short, stable name for the error kind, for logs and messages.
    pub fn kind_name(&self) -> (r: String)
        ensures
            r@ == match self {
                WalletError::UnknownType(_) => "unknown type"@,
                WalletError::AlreadyExists(_) => "already exists"@,
                WalletError::NotFound(_) => "not found"@,
                WalletError::Corrupted(_) => "corrupted"@,
                WalletError::AuthenticationFailed(_) => "authentication failed"@,
                WalletError::InvalidHandle(_) => "invalid handle"@,
                WalletError::IOError(_) => "io error"@,
                WalletError::BackendError(_) => "backend error"@,
                WalletError::ResourceBusy(_) => "resource busy"@,
            },
    {
        match self {
            WalletError::UnknownType(_) => String::from_str("unknown type"),
            WalletError::AlreadyExists(_) => String::from_str("already exists"),
            WalletError::NotFound(_) => String::from_str("not found"),
            WalletError::Corrupted(_) => String::from_str("corrupted"),
            WalletError::AuthenticationFailed(_) => String::from_str("authentication failed"),
            WalletError::InvalidHandle(_) => String::from_str("invalid handle"),
            WalletError::IOError(_) => String::from_str("io error"),
            WalletError::BackendError(_) => String::from_str("backend error"),
            WalletError::ResourceBusy(_) => String::from_str("resource busy"),
        }
    }
}

} // verus!
