//! Flat (brute-force) index: the exact reference implementation.
//!
//! `FlatIndex` keeps every inserted vector in one contiguous buffer and, at
//! search time, measures the distance from the query to every stored vector.
//! This is `O(n * d)` per query, but it returns the **exact** nearest
//! neighbors and is therefore the reference against which the recall of the
//! HNSW index is measured.

use vstd::prelude::*;
use crate::distance::Distance;
use crate::error::VexError;
use crate::ieee::spec_is_nan;
use super::{measured, rows_measured, total_metric, SearchResult};
use super::topk::{is_top_k, select_top_k};

verus! {

/// The views of a list of vectors.
pub open spec fn vector_views<T>(vs: Seq<Vec<T>>) -> Seq<Seq<T>> {
    vs.map_values(|v: Vec<T>| v@)
}

/// Row `i` of a buffer that stores rows of `dim` elements back to back.
pub open spec fn row_of<T>(data: Seq<T>, dim: nat, i: int) -> Seq<T> {
    data.subrange(i * dim, (i + 1) * dim)
}

/// Row `i` lies inside a buffer of `n` rows.
pub proof fn lemma_row_bounds(i: int, n: int, dim: int)
    requires
        0 <= i < n,
        0 <= dim,
    ensures
        0 <= i * dim,
        i * dim + dim == (i + 1) * dim,
        (i + 1) * dim <= n * dim,
{
    assert(i * dim + dim == (i + 1) * dim) by (nonlinear_arith);
    assert((i + 1) * dim <= n * dim) by (nonlinear_arith)
        requires
            i + 1 <= n,
            0 <= dim,
    ;
    assert(0 <= i * dim) by (nonlinear_arith)
        requires
            0 <= i,
            0 <= dim,
    ;
}

/// Appending a row of `dim` elements to a buffer of `n` rows adds it as row
/// `n` and leaves the earlier rows as they were.
pub proof fn lemma_append_row<T>(data: Seq<T>, v: Seq<T>, n: int, dim: int)
    requires
        0 <= n,
        0 <= dim,
        data.len() == n * dim,
        v.len() == dim,
    ensures
        (data + v).len() == (n + 1) * dim,
        forall|i: int| 0 <= i < n ==> #[trigger] row_of(data + v, dim as nat, i) == row_of(data, dim as nat, i),
        row_of(data + v, dim as nat, n) == v,
{
    assert((n + 1) * dim == n * dim + dim) by (nonlinear_arith);
    assert forall|i: int| 0 <= i < n implies #[trigger] row_of(data + v, dim as nat, i) == row_of(
        data,
        dim as nat,
        i,
    ) by {
        lemma_row_bounds(i, n, dim);
        assert(row_of(data + v, dim as nat, i) =~= row_of(data, dim as nat, i));
    }
    assert(row_of(data + v, dim as nat, n) =~= v);
}

/// `hits` are the `k` vectors of `rows` nearest to `q`, best first, for some
/// distances that the oracle `f` returned for the rows; equal distances are
/// listed by ascending ID. No hit is the answer for `k = 0`.
pub open spec fn exact_top_k<T, F: Fn(&[T], &[T]) -> u32>(
    f: F,
    q: Seq<T>,
    rows: Seq<Seq<T>>,
    k: int,
    hits: Seq<SearchResult>,
) -> bool {
    if k == 0 {
        hits.len() == 0
    } else {
        exists|ds: Seq<u32>| #[trigger] rows_measured(f, q, rows, ds) && is_top_k(ds, k, hits)
    }
}

/// No distance that the oracle `f` can return for the query `q` and a row of
/// `rows` is a NaN, so any two of them compare.
pub open spec fn comparable_distances<T, F: Fn(&[T], &[T]) -> u32>(f: F, q: Seq<T>, rows: Seq<Seq<T>>) -> bool {
    forall|i: int, d: u32| 0 <= i < rows.len() && #[trigger] measured(f, q, rows[i], d) ==> !spec_is_nan(d)
}

/// Each of `rows` is at one distance from `q`, whatever call of the oracle
/// `f` measured it, and no two of them are at distances of the same rank.
pub open spec fn distinct_distances<T, F: Fn(&[T], &[T]) -> u32>(f: F, q: Seq<T>, rows: Seq<Seq<T>>) -> bool {
    forall|i: int, j: int, a: u32, b: u32|
        0 <= i < rows.len() && 0 <= j < rows.len() && #[trigger] measured(f, q, rows[i], a) && #[trigger] measured(
            f,
            q,
            rows[j],
            b,
        ) ==> if i == j {
            a == b
        } else {
            super::dist_key(a) != super::dist_key(b)
        }
}

/// When each row is at one distance from the query, the exact top `k` is
/// unique: two exact searches return the same hits.
pub proof fn lemma_exact_top_k_unique<T, F: Fn(&[T], &[T]) -> u32>(
    f: F,
    q: Seq<T>,
    rows: Seq<Seq<T>>,
    k: int,
    h1: Seq<SearchResult>,
    h2: Seq<SearchResult>,
)
    requires
        exact_top_k(f, q, rows, k, h1),
        exact_top_k(f, q, rows, k, h2),
        distinct_distances(f, q, rows),
    ensures
        h1 == h2,
{
    if k == 0 {
        assert(h1 =~= h2);
    } else {
        let d1 = choose|ds: Seq<u32>| #[trigger] rows_measured(f, q, rows, ds) && is_top_k(ds, k, h1);
        let d2 = choose|ds: Seq<u32>| #[trigger] rows_measured(f, q, rows, ds) && is_top_k(ds, k, h2);
        assert forall|i: int| 0 <= i < rows.len() implies #[trigger] d1[i] == d2[i] by {
            assert(measured(f, q, rows[i], d1[i]));
            assert(measured(f, q, rows[i], d2[i]));
        }
        assert(d1 =~= d2);
        super::topk::lemma_top_k_unique(d1, k, h1, h2);
    }
}

/// What an exact search of `k` neighbors of `q` among `rows` needs once the
/// query is well sized and `k` within range: when at least one neighbor is
/// asked for among two or more vectors, distances that compare.
pub open spec fn rankable<T, F: Fn(&[T], &[T]) -> u32>(f: F, q: Seq<T>, rows: Seq<Seq<T>>, k: int) -> bool {
    k > 0 && rows.len() >= 2 ==> comparable_distances(f, q, rows)
}

/// Inserting `vectors` one by one into an index holding `rows0` stopped at
/// `vectors[b]`, the first vector whose dimensionality is not `dim`, with
/// error `e`; the index then holds `rows1`.
pub open spec fn stopped_at<T>(
    rows0: Seq<Seq<T>>,
    rows1: Seq<Seq<T>>,
    dim: nat,
    vectors: Seq<Vec<T>>,
    b: int,
    e: VexError,
) -> bool {
    &&& 0 <= b < vectors.len()
    &&& forall|j: int| 0 <= j < b ==> (#[trigger] vectors[j])@.len() == dim
    &&& vectors[b]@.len() != dim
    &&& e == VexError::DimensionMismatch { expected: dim as usize, got: vectors[b]@.len() as usize }
    &&& rows1 == rows0 + vector_views(vectors.subrange(0, b))
}

/// Inserting `vectors` one by one stopped at the first vector of the wrong
/// dimensionality.
pub open spec fn insert_many_stopped<T>(
    rows0: Seq<Seq<T>>,
    rows1: Seq<Seq<T>>,
    dim: nat,
    vectors: Seq<Vec<T>>,
    e: VexError,
) -> bool {
    exists|b: int| #[trigger] stopped_at(rows0, rows1, dim, vectors, b, e)
}

/// A flat (brute-force) vector index.
///
/// All vectors are stored back to back in a single `Vec<T>` of length
/// `n * dim`. Vector `i` occupies `[i * dim .. (i + 1) * dim]`.
#[derive(Debug, Clone)]
pub struct FlatIndex<T> {
    dim: usize,
    metric: Distance,
    data: Vec<T>,
    n: usize,
}

impl<T: Copy> FlatIndex<T> {
    /// The buffer holds exactly `n` rows of `dim` elements.
    pub closed spec fn wf(&self) -> bool {
        self.data@.len() == self.n * self.dim
    }

    /// The dimensionality of the stored vectors.
    pub closed spec fn spec_dim(&self) -> nat {
        self.dim as nat
    }

    /// The metric the index was created with.
    pub closed spec fn spec_metric(&self) -> Distance {
        self.metric
    }

    /// The stored vectors, in insertion order; vector `i` has ID `i`.
    pub closed spec fn rows(&self) -> Seq<Seq<T>> {
        Seq::new(self.n as nat, |i: int| row_of(self.data@, self.dim as nat, i))
    }

    /// Create an empty flat index for vectors of `dim` dimensions, using
    /// `metric` for distance comparisons.
    pub fn new(dim: usize, metric: Distance) -> (r: Self)
        ensures
            r.wf(),
            r.spec_dim() == dim,
            r.spec_metric() == metric,
            r.rows() == Seq::<Seq<T>>::empty(),
    {
        let r = FlatIndex { dim, metric, data: Vec::new(), n: 0 };
        assert(r.rows() =~= Seq::<Seq<T>>::empty());
        r
    }

    /// Create an empty flat index with room reserved for `capacity` vectors.
    pub fn with_capacity(dim: usize, metric: Distance, capacity: usize) -> (r: Self)
        requires
            capacity * dim <= usize::MAX,
        ensures
            r.wf(),
            r.spec_dim() == dim,
            r.spec_metric() == metric,
            r.rows() == Seq::<Seq<T>>::empty(),
    {
        let r = FlatIndex { dim, metric, data: Vec::with_capacity(capacity * dim), n: 0 };
        assert(r.rows() =~= Seq::<Seq<T>>::empty());
        r
    }

    /// Rebuild an index from its dimensionality, metric, row buffer and row
    /// count. Returns `None` unless the buffer holds exactly `n` rows of `dim`
    /// elements, so a saved file whose buffer and row count disagree is
    /// refused on load instead of giving an index whose rows are cut wrong.
    pub fn from_parts(dim: usize, metric: Distance, data: Vec<T>, n: usize) -> (r: Option<Self>)
        ensures
            r is Some <==> data@.len() == n * dim,
            r matches Some(idx) ==> {
                &&& idx.wf()
                &&& idx.spec_dim() == dim
                &&& idx.spec_metric() == metric
                &&& idx.rows().len() == n
                &&& forall|i: int| 0 <= i < n ==> #[trigger] idx.rows()[i] == row_of(data@, dim as nat, i)
            },
    {
        let len = data.len();
        match n.checked_mul(dim) {
            Some(total) => {
                if len == total {
                    Some(FlatIndex { dim, metric, data, n })
                } else {
                    None
                }
            },
            None => {
                proof {
                    assert(data@.len() <= usize::MAX);
                }
                None
            },
        }
    }

    /// The row buffer: the stored vectors back to back, in ID order.
    pub fn as_row_buffer(&self) -> (s: &[T])
        requires
            self.wf(),
        ensures
            s@.len() == self.rows().len() * self.spec_dim(),
            forall|i: int| 0 <= i < self.rows().len() ==> #[trigger] self.rows()[i] == row_of(s@, self.spec_dim(), i),
    {
        self.data.as_slice()
    }

    /// View the stored vector with the given `id`, or `None` if it doesn't exist.
    pub fn get(&self, id: u64) -> (r: Option<&[T]>)
        requires
            self.wf(),
        ensures
            r is None <==> id >= self.rows().len(),
            r matches Some(v) ==> v@ == self.rows()[id as int],
    {
        if id >= self.n as u64 {
            return None;
        }
        let i = id as usize;
        proof {
            lemma_row_bounds(i as int, self.n as int, self.dim as int);
        }
        let total = self.data.len();
        assert((i + 1) * self.dim <= total);
        Some(vstd::slice::slice_subrange(self.data.as_slice(), i * self.dim, (i + 1) * self.dim))
    }

    /// The metric this index uses.
    pub fn metric(&self) -> (m: Distance)
        ensures
            m == self.spec_metric(),
    {
        self.metric
    }

    /// Dimensionality of the vectors this index stores.
    pub fn dim(&self) -> (d: usize)
        ensures
            d == self.spec_dim(),
    {
        self.dim
    }

    /// Number of vectors currently in the index.
    pub fn len(&self) -> (n: usize)
        ensures
            n == self.rows().len(),
    {
        self.n
    }

    /// True if no vectors have been inserted yet.
    pub fn is_empty(&self) -> (b: bool)
        ensures
            b <==> self.rows().len() == 0,
    {
        self.n == 0
    }

    /// Insert a single vector. Returns the assigned ID, which is the number of
    /// vectors stored before the call.
    pub fn insert(&mut self, vector: &[T]) -> (r: Result<u64, VexError>)
        requires
            old(self).wf(),
            old(self).rows().len() < usize::MAX,
        ensures
            final(self).wf(),
            final(self).spec_dim() == old(self).spec_dim(),
            final(self).spec_metric() == old(self).spec_metric(),
            match r {
                Ok(id) => {
                    &&& vector@.len() == old(self).spec_dim()
                    &&& id == old(self).rows().len()
                    &&& final(self).rows() == old(self).rows().push(vector@)
                },
                Err(e) => {
                    &&& vector@.len() != old(self).spec_dim()
                    &&& e == VexError::DimensionMismatch { expected: old(self).spec_dim() as usize, got: vector@.len() as usize }
                    &&& final(self).rows() == old(self).rows()
                },
            },
    {
        if vector.len() != self.dim {
            return Err(VexError::DimensionMismatch { expected: self.dim, got: vector.len() });
        }
        let ghost old_data = self.data@;
        let ghost old_rows = self.rows();
        let id = self.n as u64;
        let mut j: usize = 0;
        while j < vector.len()
            invariant
                j <= vector@.len(),
                self.n == old(self).n,
                self.dim == old(self).dim,
                self.metric == old(self).metric,
                self.n < usize::MAX,
                old_data.len() == self.n * self.dim,
                vector@.len() == self.dim,
                self.data@ == old_data + vector@.subrange(0, j as int),
            decreases vector@.len() - j,
        {
            self.data.push(vector[j]);
            assert(vector@.subrange(0, j + 1) =~= vector@.subrange(0, j as int).push(vector@[j as int]));
            j = j + 1;
        }
        proof {
            assert(vector@.subrange(0, vector@.len() as int) =~= vector@);
            lemma_append_row(old_data, vector@, self.n as int, self.dim as int);
        }
        self.n = self.n + 1;
        proof {
            assert(self.rows() =~= old_rows.push(vector@));
        }
        Ok(id)
    }

    /// Insert several vectors, in order. Returns their IDs in input order.
    /// Stops at the first vector of the wrong dimensionality and returns its
    /// error; the vectors before it stay inserted.
    pub fn insert_many(&mut self, vectors: &[Vec<T>]) -> (r: Result<Vec<u64>, VexError>)
        requires
            old(self).wf(),
            old(self).rows().len() + vectors@.len() < usize::MAX,
        ensures
            final(self).wf(),
            final(self).spec_dim() == old(self).spec_dim(),
            final(self).spec_metric() == old(self).spec_metric(),
            match r {
                Ok(ids) => {
                    &&& forall|j: int| 0 <= j < vectors@.len() ==> (#[trigger] vectors@[j])@.len() == old(self).spec_dim()
                    &&& ids@ == Seq::new(vectors@.len(), |j: int| (old(self).rows().len() + j) as u64)
                    &&& final(self).rows() == old(self).rows() + vector_views(vectors@)
                },
                Err(e) => insert_many_stopped(
                    old(self).rows(),
                    final(self).rows(),
                    old(self).spec_dim(),
                    vectors@,
                    e,
                ),
            },
    {
        let ghost old_rows = self.rows();
        let ghost n0 = self.rows().len();
        let count = vectors.len();
        let mut b: usize = 0;
        while b < count && vectors[b].len() == self.dim
            invariant
                b <= count,
                count == vectors@.len(),
                forall|j: int| 0 <= j < b ==> (#[trigger] vectors@[j])@.len() == self.spec_dim(),
            decreases count - b,
        {
            b = b + 1;
        }
        let mut ids: Vec<u64> = Vec::with_capacity(b);
        let mut i: usize = 0;
        while i < b
            invariant
                i <= b <= vectors@.len(),
                self.wf(),
                self.spec_dim() == old(self).spec_dim(),
                self.spec_metric() == old(self).spec_metric(),
                n0 == old_rows.len(),
                n0 + vectors@.len() < usize::MAX,
                forall|j: int| 0 <= j < b ==> (#[trigger] vectors@[j])@.len() == self.spec_dim(),
                ids@ == Seq::new(i as nat, |j: int| (n0 + j) as u64),
                self.rows() == old_rows + vector_views(vectors@.subrange(0, i as int)),
            decreases b - i,
        {
            let r = self.insert(vectors[i].as_slice());
            if let Ok(id) = r {
                ids.push(id);
            }
            proof {
                assert(vector_views(vectors@.subrange(0, i + 1)) =~= vector_views(
                    vectors@.subrange(0, i as int),
                ).push(vectors@[i as int]@));
                assert(self.rows() =~= old_rows + vector_views(vectors@.subrange(0, i + 1)));
                assert(ids@ =~= Seq::new((i + 1) as nat, |j: int| (n0 + j) as u64));
            }
            i = i + 1;
        }
        if b < count {
            let e = VexError::DimensionMismatch { expected: self.dim, got: vectors[b].len() };
            proof {
                assert(stopped_at(old_rows, self.rows(), self.spec_dim(), vectors@, b as int, e));
            }
            return Err(e);
        }
        proof {
            assert(vectors@.subrange(0, vectors@.len() as int) =~= vectors@);
        }
        Ok(ids)
    }

    /// Return the top-`k` nearest neighbors of `query`, sorted ascending by
    /// distance (closest first); equal distances are listed by ascending ID.
    /// `dist(a, b)` returns the bit pattern of the `f32` distance under the
    /// index's metric. A query for `k = 0` neighbors gets none. A well-sized
    /// query for one or more of two or more stored vectors needs distances
    /// that are not NaN: the ranking is undefined otherwise.
    pub fn search<F: Fn(&[T], &[T]) -> u32>(&self, query: &[T], k: usize, dist: &F) -> (r: Result<
        Vec<SearchResult>,
        VexError,
    >)
        requires
            self.wf(),
            total_metric(*dist),
            query@.len() == self.spec_dim() && 0 < self.rows().len() && k <= self.rows().len() ==> rankable(
                *dist,
                query@,
                self.rows(),
                k as int,
            ),
        ensures
            query@.len() != self.spec_dim() ==> r == Err::<Vec<SearchResult>, VexError>(
                VexError::DimensionMismatch { expected: self.spec_dim() as usize, got: query@.len() as usize },
            ),
            query@.len() == self.spec_dim() && self.rows().len() == 0 ==> r == Err::<
                Vec<SearchResult>,
                VexError,
            >(VexError::EmptyIndex),
            query@.len() == self.spec_dim() && self.rows().len() > 0 && k > self.rows().len() ==> r
                == Err::<Vec<SearchResult>, VexError>(
                VexError::NotEnoughPoints { requested: k, available: self.rows().len() as usize },
            ),
            query@.len() == self.spec_dim() && 0 < self.rows().len() && k <= self.rows().len() ==> r is Ok,
            r matches Ok(hits) ==> exact_top_k(*dist, query@, self.rows(), k as int, hits@),
    {
        if query.len() != self.dim {
            return Err(VexError::DimensionMismatch { expected: self.dim, got: query.len() });
        }
        if self.n == 0 {
            return Err(VexError::EmptyIndex);
        }
        if k > self.n {
            return Err(VexError::NotEnoughPoints { requested: k, available: self.n });
        }
        if k == 0 {
            return Ok(Vec::new());
        }
        let dists = self.measure_all(query, dist);
        let hits = select_top_k(dists.as_slice(), k);
        assert(rows_measured(*dist, query@, self.rows(), dists@) && is_top_k(dists@, k as int, hits@));
        assert(exact_top_k(*dist, query@, self.rows(), k as int, hits@));
        Ok(hits)
    }

    /// The oracle distance from `query` to every stored vector, by ID.
    fn measure_all<F: Fn(&[T], &[T]) -> u32>(&self, query: &[T], dist: &F) -> (ds: Vec<u32>)
        requires
            self.wf(),
            total_metric(*dist),
        ensures
            rows_measured(*dist, query@, self.rows(), ds@),
    {
        let total = self.data.len();
        let mut ds: Vec<u32> = Vec::with_capacity(self.n);
        let mut i: usize = 0;
        while i < self.n
            invariant
                i <= self.n,
                self.wf(),
                total == self.data@.len(),
                total_metric(*dist),
                ds@.len() == i,
                forall|j: int| 0 <= j < i ==> measured(*dist, query@, self.rows()[j], #[trigger] ds@[j]),
            decreases self.n - i,
        {
            proof {
                lemma_row_bounds(i as int, self.n as int, self.dim as int);
            }
            let row = vstd::slice::slice_subrange(self.data.as_slice(), i * self.dim, (i + 1) * self.dim);
            let d = dist(query, row);
            proof {
                assert(row@ == self.rows()[i as int]);
            }
            ds.push(d);
            i = i + 1;
        }
        ds
    }
}

/// Read after write: after an insertion, the new ID holds the inserted vector
/// and every earlier ID still holds its own.
pub proof fn lemma_get_after_insert<T: Copy>(before: FlatIndex<T>, after: FlatIndex<T>, v: Seq<T>)
    requires
        after.rows() == before.rows().push(v),
    ensures
        after.rows()[before.rows().len() as int] == v,
        forall|i: int| 0 <= i < before.rows().len() ==> #[trigger] after.rows()[i] == before.rows()[i],
        after.rows().len() == before.rows().len() + 1,
{
}

/// A vector that the oracle puts strictly closer to the query than every
/// other stored vector is the single nearest neighbor.
pub proof fn lemma_unique_nearest_is_first(ds: Seq<u32>, out: Seq<SearchResult>, i: int)
    requires
        is_top_k(ds, 1, out),
        0 <= i < ds.len(),
        forall|j: int| 0 <= j < ds.len() && j != i ==> super::dist_key(ds[i]) < super::dist_key(#[trigger] ds[j]),
    ensures
        out[0].id == i,
{
    if out[0].id != i {
        assert(!super::topk::has_id(out, i));
        assert(super::topk::precedes(out[0], super::topk::hit_at(ds, i)));
        assert(super::dist_key(ds[i]) < super::dist_key(ds[out[0].id as int]));
    }
}

/// Searching for all `n` stored vectors returns each of them once, ranked.
pub proof fn lemma_full_search_lists_every_vector(ds: Seq<u32>, out: Seq<SearchResult>, i: int)
    requires
        is_top_k(ds, ds.len() as int, out),
        0 <= i < ds.len(),
    ensures
        super::topk::has_id(out, i),
{
    if !super::topk::has_id(out, i) {
        // The `n` distinct IDs would all lie in the `n - 1` positions other than `i`.
        super::topk::lemma_top_k_sorted_distinct(ds, ds.len() as int, out);
        let ids = out.map_values(|h: SearchResult| h.id as int);
        let s = ids.to_set();
        let range = Set::new(|x: int| 0 <= x < ds.len() && x != i);
        assert forall|x: int| s.contains(x) implies range.contains(x) by {
            let j = choose|j: int| 0 <= j < ids.len() && ids[j] == x;
            assert(out[j].id < ds.len());
            assert(out[j].id == x);
        }
        assert(ids.no_duplicates()) by {
            assert forall|a: int, b: int| 0 <= a < ids.len() && 0 <= b < ids.len() && a != b implies ids[a]
                != ids[b] by {
                if a < b {
                    assert(out[a].id != out[b].id);
                } else {
                    assert(out[b].id != out[a].id);
                }
            }
        }
        ids.unique_seq_to_set();
        assert(range =~= Set::new(|x: int| 0 <= x < ds.len()).remove(i));
        vstd::set_lib::lemma_int_range(0, ds.len() as int);
        assert(Set::new(|x: int| 0 <= x < ds.len()) =~= vstd::set_lib::set_int_range(0, ds.len() as int));
        vstd::set_lib::lemma_len_subset(s, range);
    }
}

} // verus!
