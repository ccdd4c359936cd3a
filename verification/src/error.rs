//! Error types of the public API.

use vstd::prelude::*;

verus! {

/// All errors that can be produced by the index API.
#[derive(Debug, Clone, Copy, PartialEq, Eq, Structural)]
pub enum VexError {
    /// Vector inserted into the index had the wrong number of dimensions.
    DimensionMismatch {
        /// Number of dimensions the index was created with.
        expected: usize,
        /// Number of dimensions in the offending input vector.
        got: usize,
    },
    /// Querying an empty index: there are no points to return.
    EmptyIndex,
    /// Requested more neighbors than the index contains.
    NotEnoughPoints {
        /// Number of neighbors requested.
        requested: usize,
        /// Number of points in the index.
        available: usize,
    },
    /// An ID was requested that does not exist in the index.
    IdNotFound {
        /// The requested ID.
        id: u64,
    },
}

/// Result alias for fallible vex operations.
pub type Result<T> = core::result::Result<T, VexError>;

} // verus!
