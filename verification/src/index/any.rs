//! Enum dispatch over the two index variants, as the server keeps them.

use vstd::prelude::*;
use crate::distance::Distance;
use crate::error::VexError;
use super::{measured, rows_measured, total_metric, SearchResult};
use super::flat::{exact_top_k, rankable, FlatIndex};
use super::hnsw::{approximate_hits, HnswIndex};
use super::topk::{is_top_k, lemma_top_k_sorted_distinct};

verus! {

/// Either index variant.
#[derive(Debug, Clone)]
pub enum AnyIndex<T> {
    /// An exact brute-force index.
    Flat(FlatIndex<T>),
    /// An HNSW graph index.
    Hnsw(HnswIndex<T>),
}

/// The hits of an exact search meet every guarantee of an approximate
/// search: at most `k` (here exactly `k`) distinct stored vectors, sorted by
/// distance, each with an oracle distance.
pub proof fn lemma_exact_is_approximate<T, F: Fn(&[T], &[T]) -> u32>(
    f: F,
    q: Seq<T>,
    rows: Seq<Seq<T>>,
    k: int,
    hits: Seq<SearchResult>,
)
    requires
        exact_top_k(f, q, rows, k, hits),
    ensures
        approximate_hits(f, q, rows, k, hits),
{
    if k == 0 {
        return;
    }
    let ds = choose|ds: Seq<u32>| #[trigger] rows_measured(f, q, rows, ds) && is_top_k(ds, k, hits);
    lemma_top_k_sorted_distinct(ds, k, hits);
    assert forall|i: int| 0 <= i < hits.len() implies (#[trigger] hits[i]).id < rows.len() && measured(
        f,
        q,
        rows[hits[i].id as int],
        hits[i].distance,
    ) by {
        assert(hits[i].distance == ds[hits[i].id as int]);
    }
}

impl<T: Copy> AnyIndex<T> {
    /// The wrapped index is well formed.
    pub open spec fn wf(&self) -> bool {
        match self {
            AnyIndex::Flat(f) => f.wf(),
            AnyIndex::Hnsw(h) => h.wf(),
        }
    }

    /// The dimensionality of the stored vectors.
    pub open spec fn spec_dim(&self) -> nat {
        match self {
            AnyIndex::Flat(f) => f.spec_dim(),
            AnyIndex::Hnsw(h) => h.spec_dim(),
        }
    }

    /// The metric the index was created with.
    pub open spec fn spec_metric(&self) -> Distance {
        match self {
            AnyIndex::Flat(f) => f.spec_metric(),
            AnyIndex::Hnsw(h) => h.spec_metric(),
        }
    }

    /// The stored vectors, in insertion order.
    pub open spec fn rows(&self) -> Seq<Seq<T>> {
        match self {
            AnyIndex::Flat(f) => f.rows(),
            AnyIndex::Hnsw(h) => h.rows(),
        }
    }

    /// Dimensionality of the vectors this index stores.
    pub fn dim(&self) -> (d: usize)
        ensures
            d == self.spec_dim(),
    {
        match self {
            AnyIndex::Flat(f) => f.dim(),
            AnyIndex::Hnsw(h) => h.dim(),
        }
    }

    /// The metric this index uses.
    pub fn metric(&self) -> (m: Distance)
        ensures
            m == self.spec_metric(),
    {
        match self {
            AnyIndex::Flat(f) => f.metric(),
            AnyIndex::Hnsw(h) => h.metric(),
        }
    }

    /// Number of vectors currently in the index.
    pub fn len(&self) -> (n: usize)
        ensures
            n == self.rows().len(),
    {
        match self {
            AnyIndex::Flat(f) => f.len(),
            AnyIndex::Hnsw(h) => h.len(),
        }
    }

    /// True if no vectors have been inserted yet.
    pub fn is_empty(&self) -> (b: bool)
        ensures
            b <==> self.rows().len() == 0,
    {
        self.len() == 0
    }

    /// Insert a single vector and return its ID. An HNSW index draws the new
    /// node's level with `draw_level()` once the dimensions are checked; a
    /// flat index never calls it.
    pub fn insert<F: Fn(&[T], &[T]) -> u32, L: Fn() -> u8>(&mut self, v: &[T], draw_level: &L, dist: &F) -> (r:
        Result<u64, VexError>)
        requires
            old(self).wf(),
            old(self).rows().len() < usize::MAX,
            total_metric(*dist),
            draw_level.requires(()),
        ensures
            final(self).wf(),
            final(self).spec_dim() == old(self).spec_dim(),
            final(self).spec_metric() == old(self).spec_metric(),
            (*final(self) is Flat) == (*old(self) is Flat),
            match r {
                Err(e) => {
                    &&& v@.len() != old(self).spec_dim()
                    &&& e == VexError::DimensionMismatch { expected: old(self).spec_dim() as usize, got: v@.len() as usize }
                    &&& final(self).rows() == old(self).rows()
                },
                Ok(id) => {
                    &&& v@.len() == old(self).spec_dim()
                    &&& id == old(self).rows().len()
                    &&& final(self).rows() == old(self).rows().push(v@)
                },
            },
            r matches Ok(id) ==> (*old(self) matches AnyIndex::Hnsw(h0) ==> (*final(self) matches AnyIndex::Hnsw(h1)
                && HnswIndex::<T>::inserted_with_drawn_level(h0, h1, v@, id, *draw_level, *dist))),
    {
        match self {
            AnyIndex::Flat(f) => f.insert(v),
            AnyIndex::Hnsw(h) => {
                let ghost before = *h;
                let r = h.insert(v, draw_level, dist);
                proof {
                    if let Ok(id) = r {
                        let level = choose|level: u8|
                            call_ensures(*draw_level, (), level) && #[trigger] HnswIndex::<T>::insert_post(
                                before,
                                *h,
                                v@,
                                level,
                                id,
                                *dist,
                            );
                    }
                }
                r
            },
        }
    }

    /// Return up to `k` nearest neighbors of `query`, sorted ascending by
    /// distance: exactly the `k` nearest for a flat index, the approximate
    /// ones found by graph traversal for an HNSW index. A flat index needs
    /// what [`FlatIndex::search`] needs.
    pub fn search<F: Fn(&[T], &[T]) -> u32>(&self, q: &[T], k: usize, dist: &F) -> (r: Result<Vec<SearchResult>, VexError>)
        requires
            self.wf(),
            total_metric(*dist),
            *self is Flat && q@.len() == self.spec_dim() && 0 < self.rows().len() && k <= self.rows().len()
                ==> rankable(*dist, q@, self.rows(), k as int),
        ensures
            q@.len() != self.spec_dim() ==> r == Err::<Vec<SearchResult>, VexError>(
                VexError::DimensionMismatch { expected: self.spec_dim() as usize, got: q@.len() as usize },
            ),
            q@.len() == self.spec_dim() && self.rows().len() == 0 ==> r == Err::<Vec<SearchResult>, VexError>(
                VexError::EmptyIndex,
            ),
            q@.len() == self.spec_dim() && self.rows().len() > 0 && k > self.rows().len() ==> r == Err::<
                Vec<SearchResult>,
                VexError,
            >(VexError::NotEnoughPoints { requested: k, available: self.rows().len() as usize }),
            q@.len() == self.spec_dim() && 0 < self.rows().len() && k <= self.rows().len() ==> r is Ok,
            r matches Ok(hits) ==> approximate_hits(*dist, q@, self.rows(), k as int, hits@),
            r matches Ok(hits) ==> (*self is Flat ==> exact_top_k(*dist, q@, self.rows(), k as int, hits@)),
            r matches Ok(hits) ==> hits@.len() == k,
            r matches Ok(hits) ==> (self matches AnyIndex::Hnsw(h) ==> h.search_post(*dist, q@, k, hits@)),
    {
        match self {
            AnyIndex::Flat(f) => {
                let r = f.search(q, k, dist);
                proof {
                    if r is Ok {
                        lemma_exact_is_approximate(*dist, q@, f.rows(), k as int, r->Ok_0@);
                    }
                }
                r
            },
            AnyIndex::Hnsw(h) => h.search(q, k, dist),
        }
    }
}

} // verus!
