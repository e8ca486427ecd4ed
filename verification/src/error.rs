//! Engine error type.
//!
//! A panic inside the engine is a bug by definition; every failure mode is a
//! typed variant here.

use crate::id::FactId;
use vstd::prelude::*;

verus! {

/// Every way an engine call can fail.
#[derive(Debug, Clone, PartialEq, Eq)]
pub enum Error {
    /// A pool or table would grow past its configured ceiling.
    CapacityExceeded {
        /// Which limit was hit.
        what: &'static str,
    },
    /// A single input value is larger than its configured maximum.
    TooLarge {
        /// Which input was oversized.
        what: &'static str,
        /// Actual length in bytes (or elements, per `what`).
        len: usize,
        /// The configured ceiling.
        max: usize,
    },
    /// An input vector's dimension does not match `Config::dim`.
    DimMismatch {
        /// Dimension of the provided vector.
        got: usize,
        /// Dimension the database was configured with.
        want: usize,
    },
    /// The referenced fact does not exist (or was purged).
    NotFound(FactId),
    /// `revise` targeted a fact whose validity interval is already closed.
    AlreadyClosed(FactId),
    /// A paginated read continued after the underlying catalog changed.
    StaleCursor,
    /// The database contains vectors of an unknown embedding space.
    UntrackedVectorSpace,
    /// The configured embedder belongs to a different vector space than the
    /// one recorded in the database.
    VectorSpaceMismatch {
        /// Identity persisted with the current vectors.
        stored: String,
        /// Identity supplied by the configured embedder.
        requested: String,
    },
    /// The supplied `Config` is invalid, or incompatible with the stored one.
    ConfigMismatch(&'static str),
    /// A snapshot or journal failed validation.
    Corrupt(&'static str),
    /// The snapshot was written by an unknown format version.
    UnsupportedVersion(u16),
    /// An input violates a structural rule that is not a size limit.
    Invalid(&'static str),
    /// The `Storage` implementation failed.
    Storage(String),
    /// A storage structure refused a record.
    Arena(ArenaError),
}

/// Failures of the storage structures.
#[derive(Debug, Clone, Copy, PartialEq, Eq, Structural)]
pub enum ArenaError {
    /// A structure would hold more bytes than its ceiling allows.
    CapacityExceeded,
    /// A single blob is larger than the configured maximum.
    BlobTooLarge,
    /// A stored image of a structure is malformed.
    Malformed,
}

} // verus!
