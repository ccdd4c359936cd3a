//! Distance metrics.
//!
//! Three metrics are named here: cosine distance, squared Euclidean (L2)
//! distance and negative dot product. Their floating-point evaluation is
//! supplied by the caller as a metric oracle returning the bit pattern of the
//! `f32` result; the library only orders and keeps those results.

use vstd::prelude::*;

verus! {

/// Distance metric used by an index for similarity comparisons.
#[derive(Debug, Clone, Copy, PartialEq, Eq, Hash, Structural)]
pub enum Distance {
    /// Cosine distance: `1 - cosine_similarity(a, b)`. Range `[0, 2]`.
    Cosine,
    /// Squared Euclidean distance (no `sqrt`). Range `[0, +inf)`.
    L2,
    /// Negative dot product. Use for maximum inner product search.
    DotProduct,
}

} // verus!
