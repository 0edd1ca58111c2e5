//! Error categories reported by the cache.

use vstd::prelude::*;

verus! {

/// Why an operation was refused or failed.
#[derive(Debug, Clone, Copy, PartialEq, Eq, Structural)]
pub enum CacheError {
    /// The key is empty, too long, or holds a forbidden character.
    InvalidKey,
    /// The configuration holds a limit of zero or no directory.
    InvalidConfig,
    /// A file operation failed or could not be scheduled.
    Io,
    /// A value could not be encoded.
    Serialization,
    /// Stored bytes could not be decoded.
    Deserialization,
    /// The directory lies on a network file system.
    NetworkFileSystem,
    /// Legacy data could not be taken over.
    MigrationFailed,
}

pub type CacheResult<T> = Result<T, CacheError>;

impl CacheError {
    /// Caller errors are reported at once and never retried.
    pub open spec fn spec_is_caller_error(self) -> bool {
        self == CacheError::InvalidKey || self == CacheError::InvalidConfig
    }

    #[verifier::when_used_as_spec(spec_is_caller_error)]
    pub fn is_caller_error(self) -> (r: bool)
        ensures
            r == self.spec_is_caller_error(),
    {
        match self {
            CacheError::InvalidKey => true,
            CacheError::InvalidConfig => true,
            _ => false,
        }
    }
}

} // verus!
