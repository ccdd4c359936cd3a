//! Index implementations for nearest-neighbor search.
//!
//! [`flat::FlatIndex`] is the exact brute-force baseline; [`hnsw::HnswIndex`]
//! is the hierarchical navigable small-world graph. Both store vectors of any
//! `Copy` element type and measure distances with a caller-supplied metric
//! oracle `dist(a, b)` that returns the `f32` bit pattern of the distance.

pub mod any;
pub mod flat;
pub mod hnsw;
pub mod topk;

use vstd::prelude::*;
use crate::ieee::spec_rank;

verus! {

/// A search hit: an index ID paired with the distance from the query.
#[derive(Debug, Clone, Copy, PartialEq, Eq, Structural)]
pub struct SearchResult {
    /// Index-assigned ID for the stored vector.
    pub id: u64,
    /// Bit pattern of the `f32` distance from the query under the index's metric.
    pub distance: u32,
}

/// The rank of a hit's distance (see [`crate::ieee::rank`]).
pub open spec fn dist_key(d: u32) -> int {
    spec_rank(d) as int
}

/// `d` is a value that the metric oracle `f` returned for the pair of
/// vectors `(a, b)`.
pub open spec fn measured<T, F: Fn(&[T], &[T]) -> u32>(f: F, a: Seq<T>, b: Seq<T>, d: u32) -> bool {
    exists|x: &[T], y: &[T]| x@ == a && y@ == b && call_ensures(f, (x, y), d)
}

/// The metric oracle accepts every pair of vectors.
pub open spec fn total_metric<T, F: Fn(&[T], &[T]) -> u32>(f: F) -> bool {
    forall|x: &[T], y: &[T]| #[trigger] f.requires((x, y))
}

/// `ds[i]` is an oracle distance from `q` to `rows[i]`, for every row.
pub open spec fn rows_measured<T, F: Fn(&[T], &[T]) -> u32>(
    f: F,
    q: Seq<T>,
    rows: Seq<Seq<T>>,
    ds: Seq<u32>,
) -> bool {
    &&& ds.len() == rows.len()
    &&& forall|i: int| 0 <= i < rows.len() ==> measured(f, q, rows[i], #[trigger] ds[i])
}

/// Hits are sorted by ascending distance key.
pub open spec fn sorted_by_distance(hits: Seq<SearchResult>) -> bool {
    forall|i: int, j: int|
        0 <= i < j < hits.len() ==> dist_key(#[trigger] hits[i].distance) <= dist_key(
            #[trigger] hits[j].distance,
        )
}

/// No ID occurs twice among the hits.
pub open spec fn distinct_ids(hits: Seq<SearchResult>) -> bool {
    forall|i: int, j: int| 0 <= i < j < hits.len() ==> #[trigger] hits[i].id != #[trigger] hits[j].id
}

} // verus!
