//! `vex`: a small vector database whose index logic is specified and proved.
//!
//! Vectors are stored row by row in one flat buffer. Distances are computed by
//! a caller-supplied metric oracle that returns the IEEE-754 single-precision
//! bit pattern of the distance; the library orders those bit patterns exactly
//! as the floating-point values are ordered (see [`ieee`]).

pub mod distance;
pub mod error;
pub mod ieee;
pub mod index;
pub mod server;
pub mod storage;

pub use distance::Distance;
pub use error::{Result, VexError};
pub use index::any::AnyIndex;
pub use index::flat::FlatIndex;
pub use index::hnsw::{HnswIndex, HnswParams};
pub use index::SearchResult;
