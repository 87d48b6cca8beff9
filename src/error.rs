//! Errors of the library.
use vstd::prelude::*;

verus! {

/// What can go wrong in the library's own logic.
#[derive(Debug, Clone, PartialEq, Eq)]
pub enum Error {
    /// The configuration is not usable.
    Config(String),
    /// Credentials were refused.
    AuthFailed,
    /// The requested item does not exist.
    NotFound,
    /// An internal invariant could not be upheld.
    Internal(String),
    /// A persisted cache could not be used.
    CacheCorrupted(String),
    /// A value could not be encoded for a cache.
    CacheSerialization(String),
}

pub type Result<T> = core::result::Result<T, Error>;

} // verus!
